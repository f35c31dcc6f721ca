//! Terminal UI logic: keys to commands, the input bar, and the layout of
//! the activity log. Drawing happens outside the library.
use crate::hive_core::{HiveCommand, HiveResponse};
use crate::link::PodConfig;
use crate::text::push_char;
use vstd::prelude::*;

verus! {

// ---------------------------------------------------------------------------
// Keys
// ---------------------------------------------------------------------------

/// User action triggered by keyboard input.
#[derive(Clone, Copy, Debug, PartialEq, Eq, Structural)]
pub enum Action {
    /// Quit the TUI and shut down the hive.
    Quit,
    /// Send the prompt that is in the bottom bar.
    Submit,
    /// Spawn a pod.
    SpawnPod,
}

/// The key of a key press.
#[derive(Clone, Copy, Debug, PartialEq, Eq, Structural)]
pub enum KeyPress {
    Char(char),
    Enter,
    Backspace,
    /// Any other key.
    Other,
}

/// Modifier bit of the shift key.
pub const SHIFT: u8 = 1;

/// Modifier bit of the control key.
pub const CONTROL: u8 = 2;

/// Modifier bit of the alt key.
pub const ALT: u8 = 4;

/// Modifier bit of the super key.
pub const SUPER: u8 = 8;

/// Modifier bit of the hyper key.
pub const HYPER: u8 = 16;

/// Modifier bit of the meta key.
pub const META: u8 = 32;

/// A key press together with the set of modifiers held, as bits.
#[derive(Clone, Copy, Debug, PartialEq, Eq, Structural)]
pub struct KeyChord {
    pub key: KeyPress,
    pub modifiers: u8,
}

/// Convert a key press into a hive command: control-p gives `Ping`,
/// enter gives `Submit` with an empty text, control-s gives `SpawnPod`.
/// Other keys give `None`.
pub fn handle_key(key: KeyChord) -> (r: Option<HiveCommand>)
    ensures
        (key.key == KeyPress::Char('p') && key.modifiers == CONTROL) ==> r matches Some(HiveCommand::Ping),
        key.key == KeyPress::Enter ==> (r matches Some(HiveCommand::Submit(s)) && s@.len() == 0),
        (key.key == KeyPress::Char('s') && key.modifiers == CONTROL) ==> r matches Some(HiveCommand::SpawnPod(_)),
        !(key.key == KeyPress::Enter || (key.modifiers == CONTROL && (key.key == KeyPress::Char('p')
            || key.key == KeyPress::Char('s')))) ==> r is None,
{
    match key.key {
        KeyPress::Char(c) => {
            if key.modifiers == CONTROL && c == 'p' {
                Some(HiveCommand::Ping)
            } else if key.modifiers == CONTROL && c == 's' {
                Some(HiveCommand::SpawnPod(PodConfig))
            } else {
                None
            }
        },
        KeyPress::Enter => Some(HiveCommand::Submit(String::new())),
        _ => None,
    }
}

/// The TUI action a key press asks for: control-c quits, enter submits
/// the input bar, control-s spawns a pod. Other keys ask for none.
pub fn key_action(key: KeyChord) -> (r: Option<Action>)
    ensures
        (key.key == KeyPress::Char('c') && key.modifiers == CONTROL) ==> r == Some(Action::Quit),
        key.key == KeyPress::Enter ==> r == Some(Action::Submit),
        (key.key == KeyPress::Char('s') && key.modifiers == CONTROL) ==> r == Some(Action::SpawnPod),
        !(key.key == KeyPress::Enter || (key.modifiers == CONTROL && (key.key == KeyPress::Char('c')
            || key.key == KeyPress::Char('s')))) ==> r is None,
{
    match key.key {
        KeyPress::Char(c) => {
            if key.modifiers == CONTROL && c == 'c' {
                Some(Action::Quit)
            } else if key.modifiers == CONTROL && c == 's' {
                Some(Action::SpawnPod)
            } else {
                None
            }
        },
        KeyPress::Enter => Some(Action::Submit),
        _ => None,
    }
}

// ---------------------------------------------------------------------------
// Input bar
// ---------------------------------------------------------------------------

/// Calls `String::pop`, which std documents as removing the last character
/// and returning it, or returning `None` when the string is empty.
#[verifier::external_body]
fn pop_char(s: &mut String) -> (r: Option<char>)
    ensures
        old(s)@.len() == 0 ==> r is None && final(s)@ == old(s)@,
        old(s)@.len() > 0 ==> r == Some(old(s)@.last()) && final(s)@ == old(s)@.drop_last(),
{
    s.pop()
}

/// All the states the TUI can be in.
#[derive(Clone, Copy, Debug, PartialEq, Eq, Structural)]
pub enum TuiState {
    Home,
    Spawn,
}

/// The TUI's own data: its state and the text of the input bar.
#[derive(Debug)]
pub struct Tui {
    pub state: TuiState,
    pub bar_input: String,
}

impl Tui {
    /// A TUI on its home screen with an empty input bar.
    pub fn new() -> (t: Tui)
        ensures
            t.state == TuiState::Home,
            t.bar_input@.len() == 0,
    {
        Tui { state: TuiState::Home, bar_input: String::new() }
    }

    /// React to a key press and return the command to send to the hive,
    /// if any.
    ///
    /// - enter sends the text of the input bar as a submission;
    /// - control-p sends a ping;
    /// - control-s opens the spawn screen;
    /// - any other character key is typed into the input bar, and
    ///   backspace deletes its last character.
    pub fn on_key(&mut self, key: KeyChord) -> (r: Option<HiveCommand>)
        ensures
            key.key == KeyPress::Enter ==> (r matches Some(HiveCommand::Submit(s)) && s@
                == old(self).bar_input@) && final(self).bar_input@ == old(self).bar_input@
                && final(self).state == old(self).state,
            (key.key == KeyPress::Char('p') && key.modifiers == CONTROL) ==> (r matches Some(
                HiveCommand::Ping,
            )) && final(self).bar_input@ == old(self).bar_input@ && final(self).state == old(
                self,
            ).state,
            (key.key == KeyPress::Char('s') && key.modifiers == CONTROL) ==> r is None
                && final(self).state == TuiState::Spawn && final(self).bar_input@ == old(
                self,
            ).bar_input@,
            !(key.key == KeyPress::Enter || (key.modifiers == CONTROL && (key.key == KeyPress::Char(
                'p',
            ) || key.key == KeyPress::Char('s')))) ==> r is None && final(self).state == old(
                self,
            ).state && final(self).bar_input@ == (match key.key {
                KeyPress::Char(c) => old(self).bar_input@.push(c),
                KeyPress::Backspace => if old(self).bar_input@.len() > 0 {
                    old(self).bar_input@.drop_last()
                } else {
                    old(self).bar_input@
                },
                _ => old(self).bar_input@,
            }),
    {
        match handle_key(key) {
            Some(HiveCommand::SpawnPod(_)) => {
                self.state = TuiState::Spawn;
                None
            },
            Some(HiveCommand::Submit(_)) => Some(HiveCommand::Submit(self.bar_input.clone())),
            Some(HiveCommand::Ping) => Some(HiveCommand::Ping),
            None => {
                match key.key {
                    KeyPress::Char(c) => push_char(&mut self.bar_input, c),
                    KeyPress::Backspace => {
                        pop_char(&mut self.bar_input);
                    },
                    _ => {},
                }
                None
            },
        }
    }
}

// ---------------------------------------------------------------------------
// Layout
// ---------------------------------------------------------------------------

/// The three percentages that center a span of `percent` percent: the
/// margin before it, the span, and the margin after it.
pub fn centered_percents(percent: u16) -> (r: (u16, u16, u16))
    requires
        percent <= 100,
    ensures
        r.0 == (100 - percent) / 2,
        r.1 == percent,
        r.2 == r.0,
{
    let margin = (100 - percent) / 2;
    (margin, percent, margin)
}

/// The item to select so that a list of `n_items` items shows its bottom:
/// the last one, or none in an empty list.
pub fn scroll_selection(n_items: usize) -> (r: Option<usize>)
    ensures
        n_items == 0 ==> r is None,
        n_items > 0 ==> r == Some((n_items - 1) as usize),
{
    if n_items == 0 {
        None
    } else {
        Some(n_items - 1)
    }
}

// ---------------------------------------------------------------------------
// Activity log
// ---------------------------------------------------------------------------

/// The lines that `textwrap::wrap` breaks `text` into at `width` columns.
pub uninterp spec fn wrapped_lines(text: Seq<char>, width: usize) -> Seq<Seq<char>>;

/// Calls `textwrap::wrap`, a function of its two arguments alone, and
/// owns the lines it returns; the contract names the result.
#[verifier::external_body]
fn wrap_text(text: &str, width: usize) -> (lines: Vec<String>)
    ensures
        lines@.map_values(|l: String| l@) == wrapped_lines(text@, width),
{
    textwrap::wrap(text, width).into_iter().map(|line| line.into_owned()).collect()
}

/// The lines of all the chunks, chunk after chunk.
pub open spec fn flatten(chunks: Seq<Seq<Seq<char>>>) -> Seq<Seq<char>>
    decreases chunks.len(),
{
    if chunks.len() == 0 {
        Seq::empty()
    } else {
        flatten(chunks.drop_last()) + chunks.last()
    }
}

/// The texts of a vector of strings.
pub open spec fn texts(v: Seq<String>) -> Seq<Seq<char>> {
    v.map_values(|s: String| s@)
}

/// Usable width of a bordered box `area_width` columns wide.
pub open spec fn inner_width(area_width: u16) -> usize {
    if area_width >= 2 {
        (area_width - 2) as usize
    } else {
        0
    }
}

/// The lines the activity log shows: every event's text wrapped to the
/// inside of the box, event after event.
pub open spec fn activity_view(activity: Seq<HiveResponse>, area_width: u16) -> Seq<Seq<char>> {
    flatten(activity.map_values(|e: HiveResponse| wrapped_lines(e.text@, inner_width(area_width))))
}

/// Join chunks of lines into one list of lines, chunk after chunk.
pub fn flatten_lines(chunks: &Vec<Vec<String>>) -> (r: Vec<String>)
    ensures
        texts(r@) == flatten(chunks@.map_values(|c: Vec<String>| texts(c@))),
{
    let ghost views = chunks@.map_values(|c: Vec<String>| texts(c@));
    let mut r: Vec<String> = Vec::new();
    let mut i: usize = 0;
    while i < chunks.len()
        invariant
            i <= chunks.len(),
            views == chunks@.map_values(|c: Vec<String>| texts(c@)),
            texts(r@) == flatten(views.take(i as int)),
        decreases chunks.len() - i,
    {
        let chunk = &chunks[i];
        let ghost start = texts(r@);
        let mut k: usize = 0;
        while k < chunk.len()
            invariant
                k <= chunk.len(),
                texts(r@) == start + texts(chunk@).take(k as int),
            decreases chunk.len() - k,
        {
            let ghost before = r@;
            r.push(chunk[k].clone());
            assert(texts(r@) =~= texts(before).push(chunk@[k as int]@));
            assert(texts(chunk@).take(k + 1) =~= texts(chunk@).take(k as int).push(chunk@[k as int]@));
            k = k + 1;
        }
        assert(texts(chunk@).take(chunk.len() as int) =~= texts(chunk@));
        assert(views.take(i + 1).drop_last() =~= views.take(i as int));
        assert(views.take(i + 1).last() == views[i as int]);
        i = i + 1;
    }
    assert(views.take(chunks.len() as int) =~= views);
    r
}

/// The lines of the activity log for a box `area_width` columns wide:
/// each event's text wrapped to the width inside the borders, event after
/// event.
pub fn activity_lines(activity: &Vec<HiveResponse>, area_width: u16) -> (r: Vec<String>)
    ensures
        texts(r@) == activity_view(activity@, area_width),
{
    let width = area_width.saturating_sub(2) as usize;
    let mut chunks: Vec<Vec<String>> = Vec::new();
    let mut i: usize = 0;
    while i < activity.len()
        invariant
            i <= activity.len(),
            width == inner_width(area_width),
            chunks.len() == i,
            forall|q: int| 0 <= q < i ==> #[trigger] texts(chunks@[q]@) == wrapped_lines(activity@[q].text@, width),
        decreases activity.len() - i,
    {
        chunks.push(wrap_text(activity[i].text.as_str(), width));
        i = i + 1;
    }
    let r = flatten_lines(&chunks);
    assert(chunks@.map_values(|c: Vec<String>| texts(c@)) =~= activity@.map_values(
        |e: HiveResponse| wrapped_lines(e.text@, inner_width(area_width)),
    ));
    r
}

} // verus!
