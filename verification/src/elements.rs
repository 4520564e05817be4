//! What the layout knows of the windows it holds: sizing modes, activation
//! policy, render layers and configure throttling.
use vstd::prelude::*;

verus! {

/// How a window is sized.
#[derive(Clone, Copy, PartialEq, Eq, Structural, Debug)]
pub enum SizingMode {
    Normal,
    Maximized,
    Fullscreen,
}

impl SizingMode {
    pub fn is_normal(&self) -> (r: bool)
        ensures
            r == (*self == SizingMode::Normal),
    {
        matches!(self, SizingMode::Normal)
    }

    pub fn is_fullscreen(&self) -> (r: bool)
        ensures
            r == (*self == SizingMode::Fullscreen),
    {
        matches!(self, SizingMode::Fullscreen)
    }

    pub fn is_maximized(&self) -> (r: bool)
        ensures
            r == (*self == SizingMode::Maximized),
    {
        matches!(self, SizingMode::Maximized)
    }
}

/// Size-relative units.
pub struct SizeFrac;

/// The edges being dragged in an interactive resize, as bits.
#[derive(Clone, Copy, Debug)]
pub struct InteractiveResizeData {
    pub edges: u32,
}

/// Whether a window needs a configure sent.
#[derive(Clone, Copy, PartialEq, Eq, Structural, Debug)]
pub enum ConfigureIntent {
    /// A configure is not needed (no changes to server pending state).
    NotNeeded,
    /// A configure is throttled (due to resizing too fast for example).
    Throttled,
    /// Can send the configure if it isn't throttled externally (only size changed).
    CanSend,
    /// Should send the configure regardless of external throttling (something
    /// other than size changed).
    ShouldSend,
}

/// How urgent an intent is: a shared intent takes the most urgent one, except
/// that a throttled window holds back windows that could merely send.
pub open spec fn combined_intent(intent: ConfigureIntent, next: ConfigureIntent) -> ConfigureIntent {
    match (intent, next) {
        (_, ConfigureIntent::ShouldSend) => ConfigureIntent::ShouldSend,
        (ConfigureIntent::NotNeeded, n) => n,
        (ConfigureIntent::CanSend, ConfigureIntent::Throttled) => ConfigureIntent::Throttled,
        (i, _) => i,
    }
}

/// The intent shared by windows with intents `s`, folded from the front.
pub open spec fn shared_intent_spec(s: Seq<ConfigureIntent>) -> ConfigureIntent
    decreases s.len(),
{
    if s.len() == 0 {
        ConfigureIntent::NotNeeded
    } else {
        combined_intent(shared_intent_spec(s.drop_last()), s.last())
    }
}

impl ConfigureIntent {
    /// Folds the next window's intent into the shared one.
    pub fn combine(self, next: ConfigureIntent) -> (r: ConfigureIntent)
        ensures
            r == combined_intent(self, next),
    {
        match (self, next) {
            (_, ConfigureIntent::ShouldSend) => ConfigureIntent::ShouldSend,
            (ConfigureIntent::NotNeeded, n) => n,
            (ConfigureIntent::CanSend, ConfigureIntent::Throttled) => ConfigureIntent::Throttled,
            (i, _) => i,
        }
    }

    /// The intent shared by a set of windows that are configured together.
    pub fn shared(intents: &Vec<ConfigureIntent>) -> (r: ConfigureIntent)
        ensures
            r == shared_intent_spec(intents@),
    {
        let mut acc = ConfigureIntent::NotNeeded;
        for i in 0..intents.len()
            invariant
                acc == shared_intent_spec(intents@.take(i as int)),
        {
            assert(intents@.take(i + 1).drop_last() =~= intents@.take(i as int));
            acc = acc.combine(intents[i]);
        }
        assert(intents@.take(intents@.len() as int) =~= intents@);
        acc
    }

    /// Whether a configure goes out under this intent.
    pub fn sends(self) -> (r: bool)
        ensures
            r == (self == ConfigureIntent::CanSend || self == ConfigureIntent::ShouldSend),
    {
        matches!(self, ConfigureIntent::CanSend | ConfigureIntent::ShouldSend)
    }
}

/// The shared intent is to send regardless exactly when some window wants that.
pub proof fn law_should_send_wins(s: Seq<ConfigureIntent>)
    ensures
        (shared_intent_spec(s) == ConfigureIntent::ShouldSend) == s.contains(ConfigureIntent::ShouldSend),
    decreases s.len(),
{
    if s.len() > 0 {
        law_should_send_wins(s.drop_last());
        assert(s =~= s.drop_last().push(s.last()));
        if s.drop_last().contains(ConfigureIntent::ShouldSend) {
            let k = s.drop_last().index_of(ConfigureIntent::ShouldSend);
            assert(s[k] == ConfigureIntent::ShouldSend);
        }
        if s.contains(ConfigureIntent::ShouldSend) {
            let k = s.index_of(ConfigureIntent::ShouldSend);
            if k < s.len() - 1 {
                assert(s.drop_last()[k] == ConfigureIntent::ShouldSend);
            }
        }
        if s.last() == ConfigureIntent::ShouldSend {
            assert(s[s.len() - 1] == ConfigureIntent::ShouldSend);
        }
    }
}

/// Whether to activate a newly added window.
#[derive(Clone, Copy, PartialEq, Eq, Structural, Debug)]
pub enum ActivateWindow {
    /// Activate unconditionally.
    Yes,
    /// Activate based on heuristics.
    Smart,
    /// Do not activate.
    No,
}

impl Default for ActivateWindow {
    fn default() -> (r: Self)
        ensures
            r == ActivateWindow::Smart,
    {
        ActivateWindow::Smart
    }
}

impl ActivateWindow {
    /// Whether to activate: yes or no outright, or as the heuristic `f` says.
    pub fn map_smart<F: FnOnce() -> bool>(self, f: F) -> (r: bool)
        requires
            self == ActivateWindow::Smart ==> f.requires(()),
        ensures
            self == ActivateWindow::Yes ==> r,
            self == ActivateWindow::No ==> !r,
            self == ActivateWindow::Smart ==> f.ensures((), r),
    {
        match self {
            ActivateWindow::Yes => true,
            ActivateWindow::Smart => f(),
            ActivateWindow::No => false,
        }
    }
}

/// Layer of windows to render.
#[derive(Clone, Copy, PartialEq, Eq, Structural, Debug)]
pub enum RenderLayer {
    Normal,
    /// Windows currently moving between workspaces.
    MovingBetweenWorkspaces,
}

impl RenderLayer {
    /// Whether this is the normal layer.
    pub fn is_normal(&self) -> (r: bool)
        ensures
            r == (*self == RenderLayer::Normal),
    {
        matches!(self, RenderLayer::Normal)
    }
}

/// Horizontal direction for column-oriented actions.
#[derive(Clone, Copy, PartialEq, Eq, Structural, Debug)]
pub enum ScrollDirection {
    Left,
    Right,
}

} // verus!
