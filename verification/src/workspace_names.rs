//! Sway's workspace naming rules: the number a workspace name starts with,
//! and which names a `workspace number` command matches.
use vstd::prelude::*;
use vstd::string::*;

verus! {

/// An ASCII digit.
pub open spec fn is_digit(c: char) -> bool {
    '0' <= c && c <= '9'
}

/// The value of a decimal digit.
pub open spec fn digit_value(c: char) -> int {
    c as int - '0' as int
}

/// The number of ASCII digits that `s` starts with.
pub open spec fn digit_prefix_len(s: Seq<char>) -> nat
    decreases s.len(),
{
    if s.len() == 0 || !is_digit(s[0]) {
        0
    } else {
        1 + digit_prefix_len(s.drop_first())
    }
}

/// The value of a string of decimal digits.
pub open spec fn decimal_value(s: Seq<char>) -> int
    decreases s.len(),
{
    if s.len() == 0 {
        0
    } else {
        decimal_value(s.drop_last()) * 10 + digit_value(s.last())
    }
}

/// The number a workspace name starts with: its leading digits, when there
/// are some and their value fits an `i32`.
pub open spec fn leading_number(s: Seq<char>) -> Option<i32> {
    let n = digit_prefix_len(s);
    if n == 0 || decimal_value(s.take(n as int)) > i32::MAX {
        None
    } else {
        Some(decimal_value(s.take(n as int)) as i32)
    }
}

proof fn lemma_digit_prefix(s: Seq<char>)
    ensures
        digit_prefix_len(s) <= s.len(),
        forall|i: int| 0 <= i < digit_prefix_len(s) ==> is_digit(#[trigger] s[i]),
        digit_prefix_len(s) < s.len() ==> !is_digit(s[digit_prefix_len(s) as int]),
    decreases s.len(),
{
    if s.len() > 0 && is_digit(s[0]) {
        lemma_digit_prefix(s.drop_first());
        assert forall|i: int| 0 <= i < digit_prefix_len(s) implies is_digit(#[trigger] s[i]) by {
            if i > 0 {
                assert(s[i] == s.drop_first()[i - 1]);
            }
        }
    }
}

/// Digits followed by anything start with exactly those digits.
proof fn lemma_digit_prefix_exact(s: Seq<char>, n: int)
    requires
        0 <= n <= s.len(),
        forall|i: int| 0 <= i < n ==> is_digit(#[trigger] s[i]),
        n < s.len() ==> !is_digit(s[n]),
    ensures
        digit_prefix_len(s) == n,
    decreases n,
{
    if n > 0 {
        assert forall|i: int| 0 <= i < n - 1 implies is_digit(#[trigger] s.drop_first()[i]) by {
            assert(s.drop_first()[i] == s[i + 1]);
        }
        if n - 1 < s.drop_first().len() {
            assert(s.drop_first()[n - 1] == s[n]);
        }
        lemma_digit_prefix_exact(s.drop_first(), n - 1);
    }
}

proof fn lemma_decimal_grows(s: Seq<char>, c: char)
    requires
        forall|i: int| 0 <= i < s.len() ==> is_digit(#[trigger] s[i]),
        is_digit(c),
    ensures
        decimal_value(s.push(c)) == decimal_value(s) * 10 + digit_value(c),
        decimal_value(s) >= 0,
        decimal_value(s.push(c)) >= decimal_value(s),
    decreases s.len(),
{
    assert(s.push(c).drop_last() =~= s);
    if s.len() > 0 {
        assert forall|i: int| 0 <= i < s.drop_last().len() implies is_digit(#[trigger] s.drop_last()[i]) by {
            assert(s.drop_last()[i] == s[i]);
        }
        lemma_decimal_grows(s.drop_last(), s.last());
        assert(s.drop_last().push(s.last()) =~= s);
    }
}

/// The number a workspace name starts with (see `leading_number`).
pub fn parse_workspace_num(name: &str) -> (r: Option<i32>)
    ensures
        r == leading_number(name@),
{
    let len = name.unicode_len();
    let mut i: usize = 0;
    let mut value: i64 = 0;
    let mut overflow = false;
    proof {
        lemma_digit_prefix(name@);
        assert(name@.take(0) =~= Seq::<char>::empty());
    }
    while i < len
        invariant
            len == name@.len(),
            i <= len,
            forall|k: int| 0 <= k < i ==> is_digit(#[trigger] name@[k]),
            !overflow ==> value == decimal_value(name@.take(i as int)) && 0 <= value <= i32::MAX,
            overflow ==> decimal_value(name@.take(i as int)) > i32::MAX,
        ensures
            i < len ==> !is_digit(name@[i as int]),
        decreases len - i,
    {
        let c = name.get_char(i);
        if !('0' <= c && c <= '9') {
            break;
        }
        proof {
            assert(name@.take(i + 1) =~= name@.take(i as int).push(c));
            assert forall|k: int| 0 <= k < name@.take(i as int).len() implies is_digit(
                #[trigger] name@.take(i as int)[k],
            ) by {}
            lemma_decimal_grows(name@.take(i as int), c);
        }
        if !overflow {
            let d = (c as u32 - '0' as u32) as i64;
            let next = value * 10 + d;
            if next > i32::MAX as i64 {
                overflow = true;
            } else {
                value = next;
            }
        }
        i = i + 1;
    }
    proof {
        if i < len {
            assert(!is_digit(name@[i as int]));
        }
        lemma_digit_prefix_exact(name@, i as int);
    }
    if i == 0 || overflow {
        None
    } else {
        Some(value as i32)
    }
}

/// The number of a workspace name, or -1 when it does not start with one.
pub fn sway_workspace_num(name: &str) -> (r: i32)
    ensures
        r == match leading_number(name@) {
            Some(n) => n,
            None => -1i32,
        },
{
    match parse_workspace_num(name) {
        Some(n) => n,
        None => -1,
    }
}

/// `name` starts with `prefix` and goes on with something other than a digit.
pub open spec fn starts_with_number(name: Seq<char>, prefix: Seq<char>) -> bool {
    &&& prefix.len() <= name.len()
    &&& name.take(prefix.len() as int) == prefix
    &&& (name.len() == prefix.len() || !is_digit(name[prefix.len() as int]))
}

/// Whether `name` is matched by the `workspace number <target>` form: the
/// leading digits of `target` are those of `name`, and `name` does not go on
/// with another digit. So "1" matches "1" and "1:first" but not "11".
pub fn workspace_name_matches_number(name: &str, target: &str) -> (r: bool)
    ensures
        r == starts_with_number(name@, target@.take(digit_prefix_len(target@) as int)),
{
    proof {
        lemma_digit_prefix(target@);
    }
    let n = name.unicode_len();
    let t = target.unicode_len();
    let ghost digits = target@.take(digit_prefix_len(target@) as int);
    let mut i: usize = 0;
    while i < t
        invariant
            n == name@.len(),
            t == target@.len(),
            i <= t,
            digits == target@.take(digit_prefix_len(target@) as int),
            digit_prefix_len(target@) <= t,
            forall|k: int| 0 <= k < digit_prefix_len(target@) ==> is_digit(#[trigger] target@[k]),
            digit_prefix_len(target@) < t ==> !is_digit(target@[digit_prefix_len(target@) as int]),
            i <= digit_prefix_len(target@),
            i <= n,
            name@.take(i as int) == target@.take(i as int),
        ensures
            i < t ==> !is_digit(target@[i as int]),
        decreases t - i,
    {
        let c = target.get_char(i);
        if !('0' <= c && c <= '9') {
            break;
        }
        proof {
            if i == digit_prefix_len(target@) {
                assert(!is_digit(target@[i as int]));
            }
        }
        if i >= n {
            proof {
                assert(digits.len() > n);
            }
            return false;
        }
        let m = name.get_char(i);
        if m != c {
            proof {
                assert(i < digits.len());
                assert(digits[i as int] == c);
                assert(name@[i as int] == m);
                if digits.len() <= n && name@.take(digits.len() as int) == digits {
                    assert(name@.take(digits.len() as int)[i as int] == name@[i as int]);
                }
            }
            return false;
        }
        proof {
            assert(name@.take(i + 1) =~= target@.take(i + 1));
        }
        i = i + 1;
    }
    proof {
        if i < t {
            assert(!is_digit(target@[i as int]));
            if i < digit_prefix_len(target@) {
                assert(is_digit(target@[i as int]));
            }
        }
        assert(i == digit_prefix_len(target@));
        assert(digits =~= target@.take(i as int));
    }
    if i < n {
        let m = name.get_char(i);
        !('0' <= m && m <= '9')
    } else {
        true
    }
}

/// Whether `workspace_name` starts with `number` and does not go on with a digit.
pub fn workspace_number_matches(workspace_name: &str, number: &str) -> (r: bool)
    ensures
        r == starts_with_number(workspace_name@, number@),
{
    let n = workspace_name.unicode_len();
    let p = number.unicode_len();
    if p > n {
        return false;
    }
    let mut i: usize = 0;
    while i < p
        invariant
            n == workspace_name@.len(),
            p == number@.len(),
            p <= n,
            i <= p,
            workspace_name@.take(i as int) == number@.take(i as int),
        decreases p - i,
    {
        if workspace_name.get_char(i) != number.get_char(i) {
            proof {
                if workspace_name@.take(p as int) == number@ {
                    assert(workspace_name@.take(p as int)[i as int] == workspace_name@[i as int]);
                }
            }
            return false;
        }
        proof {
            assert(workspace_name@.take(i + 1) =~= number@.take(i + 1));
        }
        i = i + 1;
    }
    proof {
        assert(number@.take(p as int) =~= number@);
    }
    if p < n {
        let c = workspace_name.get_char(p);
        !('0' <= c && c <= '9')
    } else {
        true
    }
}

/// A `workspace` command's target, as far as naming goes.
pub enum WorkspaceTarget {
    /// `workspace number <n>`.
    Number(String),
    /// `workspace <name>`.
    Name(String),
    /// `next`, `prev`, `back_and_forth` and the like.
    Relative,
}

/// `s` is a number written out plainly: digits only, without a leading zero.
pub open spec fn is_plain_number(s: Seq<char>) -> bool {
    &&& s.len() > 0
    &&& forall|i: int| 0 <= i < s.len() ==> is_digit(#[trigger] s[i])
    &&& (s.len() == 1 || s[0] != '0')
}

fn plain_number(s: &str) -> (r: bool)
    ensures
        r == is_plain_number(s@),
{
    let n = s.unicode_len();
    if n == 0 {
        return false;
    }
    let mut i: usize = 0;
    while i < n
        invariant
            n == s@.len(),
            i <= n,
            forall|k: int| 0 <= k < i ==> is_digit(#[trigger] s@[k]),
        decreases n - i,
    {
        let c = s.get_char(i);
        if !('0' <= c && c <= '9') {
            return false;
        }
        i = i + 1;
    }
    n == 1 || s.get_char(0) != '0'
}

/// The message for a `workspace number` target that is no number.
pub open spec fn invalid_number_message(name: Seq<char>) -> Seq<char> {
    "invalid workspace number '"@ + name + "'"@
}

/// The name and number a workspace created for `target` gets. A numbered
/// target must start with a number. The name is kept unless it is just its
/// number written out. Relative targets cannot create a workspace.
pub fn sway_workspace_identity(target: WorkspaceTarget) -> (r: Result<(Option<String>, Option<i32>), String>)
    ensures
        match target {
            WorkspaceTarget::Number(name) => match leading_number(name@) {
                None => r matches Err(e) && e@ == invalid_number_message(name@),
                Some(n) => r matches Ok((kept, number)) && number == Some(n) && if is_plain_number(name@) {
                    kept is None
                } else {
                    kept matches Some(k) && k@ == name@
                },
            },
            WorkspaceTarget::Name(name) => r matches Ok((kept, number)) && number == leading_number(name@)
                && if number is Some && is_plain_number(name@) {
                kept is None
            } else {
                kept matches Some(k) && k@ == name@
            },
            WorkspaceTarget::Relative => r matches Err(e) && e@ == "relative workspace target cannot be created"@,
        },
        r matches Ok((kept, Some(n))) ==> (kept is None <==> decimal_text(n as nat) == match target {
            WorkspaceTarget::Number(name) => name@,
            WorkspaceTarget::Name(name) => name@,
            WorkspaceTarget::Relative => Seq::<char>::empty(),
        }),
{
    match target {
        WorkspaceTarget::Number(name) => {
            let number = parse_workspace_num(name.as_str());
            match number {
                None => {
                    let mut message = String::from_str("invalid workspace number '");
                    message.append(name.as_str());
                    message.append("'");
                    Err(message)
                },
                Some(n) => {
                    proof {
                        law_plain_number_is_its_text(name@, n);
                    }
                    if plain_number(name.as_str()) {
                        Ok((None, Some(n)))
                    } else {
                        Ok((Some(name), Some(n)))
                    }
                },
            }
        },
        WorkspaceTarget::Name(name) => {
            let number = parse_workspace_num(name.as_str());
            proof {
                if let Some(n) = number {
                    law_plain_number_is_its_text(name@, n);
                }
            }
            if number.is_some() && plain_number(name.as_str()) {
                Ok((None, number))
            } else {
                Ok((Some(name), number))
            }
        },
        WorkspaceTarget::Relative => Err(String::from_str("relative workspace target cannot be created")),
    }
}

/// Two characters equal up to ASCII case.
pub open spec fn same_ignoring_ascii_case(x: char, y: char) -> bool {
    ||| x == y
    ||| ('A' <= x && x <= 'Z' && y as u32 == x as u32 + 32)
    ||| ('A' <= y && y <= 'Z' && x as u32 == y as u32 + 32)
}

/// Two strings equal up to ASCII case.
pub open spec fn eq_ignoring_ascii_case(a: Seq<char>, b: Seq<char>) -> bool {
    &&& a.len() == b.len()
    &&& forall|i: int| 0 <= i < a.len() ==> same_ignoring_ascii_case(#[trigger] a[i], b[i])
}

/// Whether `a` and `b` are equal up to ASCII case.
pub fn eq_ignore_ascii_case(a: &str, b: &str) -> (r: bool)
    ensures
        r == eq_ignoring_ascii_case(a@, b@),
{
    let n = a.unicode_len();
    if n != b.unicode_len() {
        return false;
    }
    let mut i: usize = 0;
    while i < n
        invariant
            n == a@.len(),
            n == b@.len(),
            i <= n,
            forall|k: int| 0 <= k < i ==> same_ignoring_ascii_case(#[trigger] a@[k], b@[k]),
        decreases n - i,
    {
        let x = a.get_char(i);
        let y = b.get_char(i);
        let same = x == y || ('A' <= x && x <= 'Z' && y as u32 == x as u32 + 32) || ('A' <= y && y <= 'Z'
            && x as u32 == y as u32 + 32);
        if !same {
            return false;
        }
        i = i + 1;
    }
    true
}

/// Whether a workspace with sway identity flag `has_identity` and name
/// `name` is the one `target` names: by number (see
/// `workspace_name_matches_number`) or by name up to ASCII case.
pub fn workspace_matches_target(has_identity: bool, name: Option<&str>, target: &WorkspaceTarget) -> (r: bool)
    ensures
        r == match target {
            WorkspaceTarget::Number(v) => has_identity && (name matches Some(n) && starts_with_number(
                n@,
                v@.take(digit_prefix_len(v@) as int),
            )),
            WorkspaceTarget::Name(v) => name matches Some(n) && eq_ignoring_ascii_case(n@, v@),
            WorkspaceTarget::Relative => false,
        },
{
    match target {
        WorkspaceTarget::Number(v) => has_identity && match name {
            Some(n) => workspace_name_matches_number(n, v.as_str()),
            None => false,
        },
        WorkspaceTarget::Name(v) => match name {
            Some(n) => eq_ignore_ascii_case(n, v.as_str()),
            None => false,
        },
        WorkspaceTarget::Relative => false,
    }
}

/// For a target made of digits only, the two ways of matching a workspace
/// number agree: `workspace_name_matches_number` and `workspace_number_matches`.
pub proof fn law_number_forms_agree(name: Seq<char>, target: Seq<char>)
    requires
        forall|i: int| 0 <= i < target.len() ==> is_digit(#[trigger] target[i]),
    ensures
        starts_with_number(name, target.take(digit_prefix_len(target) as int)) == starts_with_number(name, target),
{
    lemma_digit_prefix_exact(target, target.len() as int);
    assert(target.take(target.len() as int) =~= target);
}

/// The digit character for `d` (taken modulo ten).
pub open spec fn digit_char(d: int) -> char {
    let k = d % 10;
    if k == 0 {
        '0'
    } else if k == 1 {
        '1'
    } else if k == 2 {
        '2'
    } else if k == 3 {
        '3'
    } else if k == 4 {
        '4'
    } else if k == 5 {
        '5'
    } else if k == 6 {
        '6'
    } else if k == 7 {
        '7'
    } else if k == 8 {
        '8'
    } else {
        '9'
    }
}

/// The decimal text of `n`, without leading zeros (what `to_string` gives).
pub open spec fn decimal_text(n: nat) -> Seq<char>
    decreases n,
{
    if n < 10 {
        seq![digit_char(n as int)]
    } else {
        decimal_text((n / 10) as nat).push(digit_char(n as int))
    }
}

proof fn lemma_digit_char(c: char)
    requires
        is_digit(c),
    ensures
        digit_char(digit_value(c)) == c,
        0 <= digit_value(c) < 10,
{
    let k = digit_value(c);
    assert(0 <= k < 10);
    assert(k % 10 == k);
    assert(c as int == '0' as int + k);
    assert(((c as int) as char) == c);
    if k == 0 {
        assert(c as int == '0' as int);
        assert((('0' as int) as char) == '0');
    } else if k == 1 {
        assert(c as int == '1' as int);
        assert((('1' as int) as char) == '1');
    } else if k == 2 {
        assert(c as int == '2' as int);
        assert((('2' as int) as char) == '2');
    } else if k == 3 {
        assert(c as int == '3' as int);
        assert((('3' as int) as char) == '3');
    } else if k == 4 {
        assert(c as int == '4' as int);
        assert((('4' as int) as char) == '4');
    } else if k == 5 {
        assert(c as int == '5' as int);
        assert((('5' as int) as char) == '5');
    } else if k == 6 {
        assert(c as int == '6' as int);
        assert((('6' as int) as char) == '6');
    } else if k == 7 {
        assert(c as int == '7' as int);
        assert((('7' as int) as char) == '7');
    } else if k == 8 {
        assert(c as int == '8' as int);
        assert((('8' as int) as char) == '8');
    } else {
        assert(c as int == '9' as int);
        assert((('9' as int) as char) == '9');
    }
}

proof fn lemma_decimal_value_positive(s: Seq<char>)
    requires
        s.len() > 0,
        forall|i: int| 0 <= i < s.len() ==> is_digit(#[trigger] s[i]),
        s[0] != '0',
    ensures
        decimal_value(s) > 0,
    decreases s.len(),
{
    let t = s.drop_last();
    assert(decimal_value(s) == decimal_value(t) * 10 + digit_value(s.last()));
    assert(is_digit(s[s.len() - 1]));
    if s.len() > 1 {
        assert(t[0] == s[0]);
        assert forall|i: int| 0 <= i < t.len() implies is_digit(#[trigger] t[i]) by {
            assert(t[i] == s[i]);
        }
        lemma_decimal_value_positive(t);
    } else {
        assert(t.len() == 0);
        assert(s.last() == s[0]);
        assert(s[0] as int != '0' as int) by {
            if s[0] as int == '0' as int {
                assert(((s[0] as int) as char) == s[0]);
                assert((('0' as int) as char) == '0');
            }
        }
    }
}

/// The decimal text of a plain number is the number itself.
proof fn lemma_plain_text(s: Seq<char>)
    requires
        is_plain_number(s),
    ensures
        decimal_value(s) >= 0,
        decimal_text(decimal_value(s) as nat) == s,
    decreases s.len(),
{
    lemma_digit_char(s.last());
    if s.len() == 1 {
        assert(decimal_value(s) == decimal_value(s.drop_last()) * 10 + digit_value(s.last()));
        assert(decimal_value(s.drop_last()) == 0);
        assert(decimal_text(decimal_value(s) as nat) =~= s);
    } else {
        let t = s.drop_last();
        assert(t[0] == s[0]);
        assert(is_plain_number(t));
        lemma_plain_text(t);
        lemma_decimal_value_positive(t);
        let a = decimal_value(t);
        let d = digit_value(s.last());
        let n = decimal_value(s);
        assert(n == a * 10 + d);
        assert(n / 10 == a && n % 10 == d) by (nonlinear_arith)
            requires
                n == a * 10 + d,
                0 <= d < 10,
                a > 0,
        ;
        assert(decimal_text(n as nat) == decimal_text(a as nat).push(digit_char(n)));
        assert(digit_char(n) == digit_char(d));
        assert(s =~= t.push(s.last()));
    }
}

/// The decimal text of `n` is a plain number worth `n`.
proof fn lemma_text_plain(n: nat)
    ensures
        is_plain_number(decimal_text(n)),
        decimal_value(decimal_text(n)) == n,
    decreases n,
{
    let t = decimal_text(n);
    if n < 10 {
        assert(is_digit(t[0]));
        assert(decimal_value(t) == decimal_value(t.drop_last()) * 10 + digit_value(t.last()));
        assert(t.drop_last().len() == 0);
    } else {
        let m = (n / 10) as nat;
        lemma_text_plain(m);
        let u = decimal_text(m);
        assert(t == u.push(digit_char(n as int)));
        assert(u[0] != '0') by {
            if u[0] == '0' {
                assert(u.len() == 1);
                assert(decimal_value(u) == decimal_value(u.drop_last()) * 10 + digit_value(u.last()));
            }
        }
        assert(t[0] == u[0]);
        assert forall|i: int| 0 <= i < t.len() implies is_digit(#[trigger] t[i]) by {
            if i < u.len() {
                assert(t[i] == u[i]);
            }
        }
        assert(t.drop_last() =~= u);
        let d = n as int % 10;
        assert(digit_value(digit_char(n as int)) == d);
        assert(m * 10 + d == n) by (nonlinear_arith)
            requires
                m == n / 10,
                d == n % 10,
        ;
    }
}

/// A name is a plain number exactly when it is the decimal text of the
/// number it starts with: the rule by which a new workspace keeps its name
/// unless the name is its number written out.
pub proof fn law_plain_number_is_its_text(s: Seq<char>, n: i32)
    requires
        leading_number(s) == Some(n),
    ensures
        n >= 0,
        is_plain_number(s) <==> decimal_text(n as nat) == s,
{
    lemma_digit_prefix(s);
    let k = digit_prefix_len(s);
    if is_plain_number(s) {
        lemma_digit_prefix_exact(s, s.len() as int);
        assert(s.take(s.len() as int) =~= s);
        lemma_plain_text(s);
    } else {
        if decimal_text(n as nat) == s {
            lemma_text_plain(n as nat);
        }
    }
    lemma_decimal_nonneg(s.take(k as int));
}

proof fn lemma_decimal_nonneg(s: Seq<char>)
    requires
        forall|i: int| 0 <= i < s.len() ==> is_digit(#[trigger] s[i]),
    ensures
        decimal_value(s) >= 0,
    decreases s.len(),
{
    if s.len() > 0 {
        let t = s.drop_last();
        assert forall|i: int| 0 <= i < t.len() implies is_digit(#[trigger] t[i]) by {
            assert(t[i] == s[i]);
        }
        lemma_decimal_nonneg(t);
    }
}

/// Equality up to ASCII case is reflexive and symmetric.
pub proof fn law_ascii_case_equivalence(a: Seq<char>, b: Seq<char>)
    ensures
        eq_ignoring_ascii_case(a, a),
        eq_ignoring_ascii_case(a, b) == eq_ignoring_ascii_case(b, a),
{
    if eq_ignoring_ascii_case(a, b) {
        assert forall|i: int| 0 <= i < b.len() implies same_ignoring_ascii_case(#[trigger] b[i], a[i]) by {
            assert(same_ignoring_ascii_case(a[i], b[i]));
        }
    }
    if eq_ignoring_ascii_case(b, a) {
        assert forall|i: int| 0 <= i < a.len() implies same_ignoring_ascii_case(#[trigger] a[i], b[i]) by {
            assert(same_ignoring_ascii_case(b[i], a[i]));
        }
    }
}

} // verus!
