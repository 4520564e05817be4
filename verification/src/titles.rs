//! Title formats: a container's title is its format with `%title` replaced by
//! the text that stands for its contents.
use vstd::prelude::*;
use vstd::string::*;

verus! {

/// The placeholder in a title format.
pub open spec fn title_token() -> Seq<char> {
    seq!['%', 't', 'i', 't', 'l', 'e']
}

/// `s` with every occurrence of `pat` replaced by `rep`, scanning from the
/// left and never overlapping.
pub open spec fn replace_all(s: Seq<char>, pat: Seq<char>, rep: Seq<char>) -> Seq<char>
    decreases s.len(),
{
    if s.len() == 0 {
        Seq::empty()
    } else if pat.len() > 0 && pat.len() <= s.len() && s.take(pat.len() as int) == pat {
        rep + replace_all(s.skip(pat.len() as int), pat, rep)
    } else {
        seq![s[0]] + replace_all(s.skip(1), pat, rep)
    }
}

/// Whether the placeholder starts at position `i` of `s`.
pub(crate) fn token_at(s: &str, n: usize, i: usize) -> (r: bool)
    requires
        n == s@.len(),
        i <= n,
    ensures
        r == (6 <= n - i && s@.skip(i as int).take(6) == title_token()),
{
    if n - i < 6 {
        return false;
    }
    let r = s.get_char(i) == '%' && s.get_char(i + 1) == 't' && s.get_char(i + 2) == 'i' && s.get_char(i + 3)
        == 't' && s.get_char(i + 4) == 'l' && s.get_char(i + 5) == 'e';
    proof {
        let w = s@.skip(i as int).take(6);
        if r {
            assert(w =~= title_token());
        } else {
            if w == title_token() {
                assert(w[0] == s@[i as int]);
                assert(w[1] == s@[i + 1]);
                assert(w[2] == s@[i + 2]);
                assert(w[3] == s@[i + 3]);
                assert(w[4] == s@[i + 4]);
                assert(w[5] == s@[i + 5]);
            }
        }
    }
    r
}

/// The title of a container: `representation` itself when there is no format
/// or the format is just the placeholder, else the format with each
/// placeholder replaced by `representation`.
pub fn format_representation(format: Option<&str>, representation: &str) -> (r: String)
    ensures
        r@ == match format {
            None => representation@,
            Some(f) => if f@ == title_token() {
                representation@
            } else {
                replace_all(f@, title_token(), representation@)
            },
        },
{
    let Some(f) = format else {
        return String::from_str(representation);
    };
    let n = f.unicode_len();
    if n == 6 && token_at(f, n, 0) {
        proof {
            assert(f@.skip(0).take(6) =~= f@);
        }
        return String::from_str(representation);
    }
    proof {
        if f@ == title_token() {
            assert(f@.skip(0).take(6) =~= f@);
        }
    }
    let mut out = String::new();
    let mut i: usize = 0;
    assert(f@.skip(0) =~= f@);
    while i < n
        invariant
            n == f@.len(),
            i <= n,
            out@ + replace_all(f@.skip(i as int), title_token(), representation@) == replace_all(
                f@,
                title_token(),
                representation@,
            ),
        decreases n - i,
    {
        let ghost rest = f@.skip(i as int);
        if token_at(f, n, i) {
            proof {
                assert(rest.skip(6) =~= f@.skip(i + 6));
                assert(out@ + representation@ + replace_all(f@.skip(i + 6), title_token(), representation@) =~= out@
                    + replace_all(rest, title_token(), representation@));
            }
            out.append(representation);
            i = i + 6;
        } else {
            let one = f.substring_char(i, i + 1);
            proof {
                assert(rest.skip(1) =~= f@.skip(i + 1));
                assert(one@ =~= seq![rest[0]]);
                assert(out@ + one@ + replace_all(f@.skip(i + 1), title_token(), representation@) =~= out@
                    + replace_all(rest, title_token(), representation@));
            }
            out.append(one);
            i = i + 1;
        }
    }
    proof {
        assert(f@.skip(n as int) =~= Seq::<char>::empty());
        assert(out@ + Seq::<char>::empty() =~= out@);
    }
    out
}

/// A format without the placeholder is the title as it stands.
pub proof fn law_format_without_token_is_kept(f: Seq<char>, rep: Seq<char>)
    requires
        forall|i: int| 0 <= i && i + 6 <= f.len() ==> #[trigger] f.skip(i).take(6) != title_token(),
    ensures
        replace_all(f, title_token(), rep) == f,
    decreases f.len(),
{
    if f.len() > 0 {
        if 6 <= f.len() {
            assert(f.take(6) =~= f.skip(0).take(6));
        }
        assert forall|i: int| 0 <= i && i + 6 <= f.skip(1).len() implies #[trigger] f.skip(1).skip(i).take(6)
            != title_token() by {
            assert(f.skip(1).skip(i).take(6) =~= f.skip(i + 1).take(6));
        }
        law_format_without_token_is_kept(f.skip(1), rep);
        assert(seq![f[0]] + f.skip(1) =~= f);
    }
}

} // verus!
