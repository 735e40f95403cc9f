//! The interactive selection model: which results are marked, where the
//! cursor stands, how a key press moves them, and the exact text of the
//! selection screen. Reading key events and painting the terminal live
//! with the caller.

use vstd::prelude::*;

use crate::dependency::{Dependencies, Dependency};
use crate::text::{
    date_part, decimal_string, spaces, spec_date_part, spec_decimal, spec_repeat,
};

verus! {

/// A key press, as the selection screen understands it.
#[derive(Debug, Clone, Copy, PartialEq, Eq, Structural)]
pub enum Key {
    Up,
    Down,
    Left,
    Right,
    Enter,
    Esc,
    Char(char),
    Other,
}

/// What the caller should do after a key press.
#[derive(Debug, Clone, Copy, PartialEq, Eq, Structural)]
pub enum Event {
    HandleKeyboardEvent,
    UpdateDependencies,
    Exit,
}

/// The widths the columns are padded to.
#[derive(Debug, Clone, Copy, PartialEq, Eq, Structural)]
pub struct Longest {
    pub name: usize,
    pub current_version: usize,
    pub latest_version: usize,
}

pub open spec fn spec_longest_name(s: Seq<Dependency>) -> nat
    decreases s.len(),
{
    if s.len() == 0 {
        0
    } else {
        let rest = spec_longest_name(s.drop_last());
        if s.last().name@.len() > rest {
            s.last().name@.len()
        } else {
            rest
        }
    }
}

pub open spec fn spec_longest_current(s: Seq<Dependency>) -> nat
    decreases s.len(),
{
    if s.len() == 0 {
        0
    } else {
        let rest = spec_longest_current(s.drop_last());
        if s.last().current_version@.len() > rest {
            s.last().current_version@.len()
        } else {
            rest
        }
    }
}

pub open spec fn spec_longest_latest(s: Seq<Dependency>) -> nat
    decreases s.len(),
{
    if s.len() == 0 {
        0
    } else {
        let rest = spec_longest_latest(s.drop_last());
        if s.last().latest_version@.len() > rest {
            s.last().latest_version@.len()
        } else {
            rest
        }
    }
}

/// Each width is at least the corresponding field's width in every row.
pub proof fn lemma_longest_covers(s: Seq<Dependency>)
    ensures
        forall|i: int|
            0 <= i < s.len() ==> (#[trigger] s[i]).name@.len() <= spec_longest_name(s)
                && s[i].current_version@.len() <= spec_longest_current(s)
                && s[i].latest_version@.len() <= spec_longest_latest(s),
    decreases s.len(),
{
    if s.len() > 0 {
        lemma_longest_covers(s.drop_last());
        assert forall|i: int| 0 <= i < s.len() implies (#[trigger] s[i]).name@.len()
            <= spec_longest_name(s) && s[i].current_version@.len() <= spec_longest_current(s)
            && s[i].latest_version@.len() <= spec_longest_latest(s) by {
            if i < s.len() - 1 {
                assert(s.drop_last()[i] == s[i]);
            } else {
                assert(s[i] == s.last());
            }
        }
    }
}

impl Longest {
    /// Measures the widest name and version strings of the results.
    #[verifier::loop_isolation(false)]
    pub fn get_longest_attributes(dependencies: &Dependencies) -> (r: Longest)
        ensures
            r.name as nat == spec_longest_name(dependencies@),
            r.current_version as nat == spec_longest_current(dependencies@),
            r.latest_version as nat == spec_longest_latest(dependencies@),
    {
        let mut name: usize = 0;
        let mut current_version: usize = 0;
        let mut latest_version: usize = 0;
        let n = dependencies.len();
        let mut i: usize = 0;
        proof {
            assert(dependencies@.subrange(0, 0) =~= Seq::<Dependency>::empty());
        }
        while i < n
            invariant
                i <= n,
                n == dependencies@.len(),
                name as nat == spec_longest_name(dependencies@.subrange(0, i as int)),
                current_version as nat == spec_longest_current(
                    dependencies@.subrange(0, i as int),
                ),
                latest_version as nat == spec_longest_latest(dependencies@.subrange(0, i as int)),
            decreases n - i,
        {
            proof {
                assert(dependencies@.subrange(0, i + 1).drop_last() =~= dependencies@.subrange(
                    0,
                    i as int,
                ));
                assert(dependencies@.subrange(0, i + 1).last() == dependencies@[i as int]);
            }
            let dep = dependencies.get(i);
            let nl = dep.name.as_str().unicode_len();
            if nl > name {
                name = nl;
            }
            let cl = dep.current_version.as_str().unicode_len();
            if cl > current_version {
                current_version = cl;
            }
            let ll = dep.latest_version.as_str().unicode_len();
            if ll > latest_version {
                latest_version = ll;
            }
            i = i + 1;
        }
        proof {
            assert(dependencies@.subrange(0, n as int) =~= dependencies@);
        }
        Longest { name, current_version, latest_version }
    }
}

/// The selection screen's state.
#[derive(Debug, PartialEq, Eq)]
pub struct State {
    pub selected: Vec<bool>,
    pub cursor_location: usize,
    pub outdated_deps: Dependencies,
    pub total_deps: usize,
    pub longest_attributes: Longest,
}

impl State {
    /// One mark per result, the cursor inside the list whenever the list
    /// is not empty, and the column widths measured from the list.
    pub open spec fn wf(&self) -> bool {
        &&& self.selected@.len() == self.outdated_deps@.len()
        &&& (self.outdated_deps@.len() > 0 ==> self.cursor_location < self.outdated_deps@.len())
        &&& (self.outdated_deps@.len() == 0 ==> self.cursor_location == 0)
        &&& self.longest_attributes.name as nat == spec_longest_name(self.outdated_deps@)
        &&& self.longest_attributes.current_version as nat == spec_longest_current(
            self.outdated_deps@,
        )
        &&& self.longest_attributes.latest_version as nat == spec_longest_latest(
            self.outdated_deps@,
        )
    }

    /// Starts the screen over the final results: nothing selected, the
    /// cursor on the first row.
    #[verifier::loop_isolation(false)]
    pub fn new(outdated_deps: Dependencies, total_deps: usize) -> (r: State)
        ensures
            r.wf(),
            r.outdated_deps == outdated_deps,
            r.total_deps == total_deps,
            r.cursor_location == 0,
            forall|i: int| 0 <= i < r.selected@.len() ==> !(#[trigger] r.selected@[i]),
    {
        let n = outdated_deps.len();
        let mut selected: Vec<bool> = Vec::new();
        let mut i: usize = 0;
        while i < n
            invariant
                i <= n,
                selected@.len() == i,
                forall|k: int| 0 <= k < i ==> !(#[trigger] selected@[k]),
            decreases n - i,
        {
            selected.push(false);
            i = i + 1;
        }
        let longest_attributes = Longest::get_longest_attributes(&outdated_deps);
        State { selected, cursor_location: 0, outdated_deps, total_deps, longest_attributes }
    }

    /// Moves the screen one key press forward: arrows wrap the cursor
    /// around the list, space toggles the mark under the cursor, `a`
    /// marks everything, `i` inverts every mark, enter asks for the
    /// update, and escape or `q` leaves; anything else changes nothing.
    pub fn handle_keyboard_event(&mut self, key: Key) -> (r: Event)
        requires
            old(self).wf(),
            old(self).outdated_deps@.len() > 0,
        ensures
            final(self).wf(),
            final(self).outdated_deps == old(self).outdated_deps,
            final(self).total_deps == old(self).total_deps,
            final(self).longest_attributes == old(self).longest_attributes,
            final(self).selected@.len() == old(self).selected@.len(),
            (key == Key::Up || key == Key::Left) ==> (r == Event::HandleKeyboardEvent && final(self).selected == old(self).selected && final(self).cursor_location as int == if old(self).cursor_location == 0 {
                old(self).outdated_deps@.len() - 1
            } else {
                old(self).cursor_location - 1
            }),
            (key == Key::Down || key == Key::Right) ==> (r == Event::HandleKeyboardEvent && final(self).selected == old(self).selected && final(self).cursor_location as int == (old(self).cursor_location + 1) as int % (old(self).outdated_deps@.len() as int)),
            key == Key::Char(' ') ==> (r == Event::HandleKeyboardEvent && final(self).cursor_location
                == old(self).cursor_location && final(self).selected@ == old(self).selected@.update(
                old(self).cursor_location as int,
                !old(self).selected@[old(self).cursor_location as int],
            )),
            key == Key::Enter ==> (r == Event::UpdateDependencies && final(self).selected == old(self).selected && final(self).cursor_location == old(self).cursor_location),
            key == Key::Char('a') ==> (r == Event::HandleKeyboardEvent && final(self).cursor_location == old(self).cursor_location && forall|i: int|
                0 <= i < final(self).selected@.len() ==> (#[trigger] final(self).selected@[i])),
            key == Key::Char('i') ==> (r == Event::HandleKeyboardEvent && final(self).cursor_location == old(self).cursor_location && forall|i: int|
                0 <= i < final(self).selected@.len() ==> (#[trigger] final(self).selected@[i])
                    == !old(self).selected@[i]),
            (key == Key::Esc || key == Key::Char('q')) ==> (r == Event::Exit && final(self).selected
                == old(self).selected && final(self).cursor_location == old(self).cursor_location),
            (key == Key::Other || (key is Char && key->0 != ' ' && key->0 != 'a' && key->0 != 'i'
                && key->0 != 'q')) ==> (r == Event::HandleKeyboardEvent && final(self).selected
                == old(self).selected && final(self).cursor_location == old(self).cursor_location),
    {
        let n = self.outdated_deps.len();
        match key {
            Key::Up | Key::Left => {
                self.cursor_location = if self.cursor_location == 0 {
                    n - 1
                } else {
                    self.cursor_location - 1
                };
                Event::HandleKeyboardEvent
            },
            Key::Down | Key::Right => {
                self.cursor_location = (self.cursor_location + 1) % n;
                Event::HandleKeyboardEvent
            },
            Key::Char(c) => {
                if c == ' ' {
                    let cur = self.cursor_location;
                    let was = self.selected[cur];
                    let ghost before = self.selected@;
                    self.selected.remove(cur);
                    self.selected.insert(cur, !was);
                    proof {
                        assert(self.selected@ =~= before.update(cur as int, !was));
                    }
                    Event::HandleKeyboardEvent
                } else if c == 'a' {
                    let len = self.selected.len();
                    let mut all: Vec<bool> = Vec::new();
                    let mut i: usize = 0;
                    while i < len
                        invariant
                            i <= len,
                            all@.len() == i,
                            forall|k: int| 0 <= k < i ==> (#[trigger] all@[k]),
                        decreases len - i,
                    {
                        all.push(true);
                        i = i + 1;
                    }
                    self.selected = all;
                    Event::HandleKeyboardEvent
                } else if c == 'i' {
                    let len = self.selected.len();
                    let mut flipped: Vec<bool> = Vec::new();
                    let mut i: usize = 0;
                    while i < len
                        invariant
                            i <= len,
                            len == self.selected@.len(),
                            flipped@.len() == i,
                            forall|k: int|
                                0 <= k < i ==> (#[trigger] flipped@[k]) == !self.selected@[k],
                        decreases len - i,
                    {
                        let b = self.selected[i];
                        flipped.push(!b);
                        i = i + 1;
                    }
                    self.selected = flipped;
                    Event::HandleKeyboardEvent
                } else if c == 'q' {
                    Event::Exit
                } else {
                    Event::HandleKeyboardEvent
                }
            },
            Key::Enter => Event::UpdateDependencies,
            Key::Esc => Event::Exit,
            Key::Other => Event::HandleKeyboardEvent,
        }
    }
}

/// The marked results, in their display order.
pub open spec fn spec_selected(deps: Seq<Dependency>, sel: Seq<bool>) -> Seq<Dependency>
    decreases deps.len(),
{
    if deps.len() == 0 {
        Seq::empty()
    } else {
        let rest = spec_selected(deps.drop_last(), sel.drop_last());
        if sel.len() == deps.len() && sel.last() {
            rest.push(deps.last())
        } else {
            rest
        }
    }
}

impl State {
    /// Hands the marked results out, in display order.
    #[verifier::loop_isolation(false)]
    pub fn selected_dependencies(self) -> (r: Dependencies)
        requires
            self.wf(),
        ensures
            r@ == spec_selected(self.outdated_deps@, self.selected@),
    {
        let ghost deps_view = self.outdated_deps@;
        let ghost sel_view = self.selected@;
        let mut rest = self.outdated_deps.into_vec();
        let sel = self.selected;
        let mut out: Vec<Dependency> = Vec::new();
        let mut i: usize = 0;
        proof {
            assert(deps_view.subrange(0, 0) =~= Seq::<Dependency>::empty());
            assert(sel_view.subrange(0, 0) =~= Seq::<bool>::empty());
            assert(rest@ =~= deps_view.subrange(0, deps_view.len() as int));
        }
        while rest.len() > 0
            invariant
                rest@.len() <= deps_view.len(),
                sel_view.len() == deps_view.len(),
                sel@ == sel_view,
                i as int == deps_view.len() - rest@.len(),
                rest@ == deps_view.subrange(
                    deps_view.len() - rest@.len(),
                    deps_view.len() as int,
                ),
                out@ == spec_selected(
                    deps_view.subrange(0, deps_view.len() - rest@.len()),
                    sel_view.subrange(0, deps_view.len() - rest@.len()),
                ),
            decreases rest@.len(),
        {
            let ghost done = deps_view.len() - rest@.len();
            let d = rest.remove(0);
            proof {
                assert(d == deps_view[done]);
                assert(rest@ =~= deps_view.subrange(
                    deps_view.len() - rest@.len(),
                    deps_view.len() as int,
                ));
                assert(deps_view.subrange(0, done + 1).drop_last() =~= deps_view.subrange(
                    0,
                    done,
                ));
                assert(sel_view.subrange(0, done + 1).drop_last() =~= sel_view.subrange(0, done));
                assert(deps_view.subrange(0, done + 1).last() == deps_view[done]);
                assert(sel_view.subrange(0, done + 1).last() == sel_view[done]);
            }
            let i_now = i;
            let keep = sel[i_now];
            if keep {
                out.push(d);
            }
            proof {
                assert(out@ =~= spec_selected(
                    deps_view.subrange(0, done + 1),
                    sel_view.subrange(0, done + 1),
                ));
            }
            i = i + 1;
        }
        proof {
            assert(deps_view.subrange(0, deps_view.len() as int) =~= deps_view);
            assert(sel_view.subrange(0, sel_view.len() as int) =~= sel_view);
        }
        Dependencies::new(out)
    }
}

/// The date a timestamp field displays: the text before its `T`, if any.
pub fn get_date_from_datetime_string<'a>(datetime_string: Option<&'a str>) -> (r: Option<&'a str>)
    ensures
        match datetime_string {
            Some(s) => match r {
                Some(d) => spec_date_part(s@) == Some(d@),
                None => spec_date_part(s@) is None,
            },
            None => r is None,
        },
{
    match datetime_string {
        Some(s) => date_part(s),
        None => None,
    }
}

/// How many results are marked.
pub open spec fn spec_count_selected(sel: Seq<bool>) -> nat
    decreases sel.len(),
{
    if sel.len() == 0 {
        0
    } else {
        spec_count_selected(sel.drop_last()) + if sel.last() {
            1nat
        } else {
            0nat
        }
    }
}

/// An optional field as displayed: its text, or `none`.
pub open spec fn spec_or_none(o: Option<String>) -> Seq<char> {
    match o {
        Some(s) => s@,
        None => "none"@,
    }
}

/// A timestamp field as displayed: its date part, or `none`.
pub open spec fn spec_date_display(o: Option<String>) -> Seq<char> {
    match o {
        Some(s) => match spec_date_part(s@) {
            Some(d) => d,
            None => "none"@,
        },
        None => "none"@,
    }
}

/// A description as displayed: its first sixty characters.
pub open spec fn spec_desc60(o: Option<String>) -> Seq<char> {
    let d = match o {
        Some(s) => s@,
        None => Seq::empty(),
    };
    if d.len() <= 60 {
        d
    } else {
        d.subrange(0, 60)
    }
}

/// One result row: the mark bullet, then name, dated current and latest
/// versions and repository and description, each column padded to the
/// measured width.
pub open spec fn spec_render_row(d: Dependency, sel: bool, longest: Longest) -> Seq<char> {
    (if sel {
        "\u{25cf}"@
    } else {
        "\u{25cb}"@
    }) + " "@ + d.name@ + spec_repeat(' ', (longest.name - d.name@.len()) as nat) + "  "@
        + spec_date_display(d.current_version_date) + " "@ + d.current_version@ + spec_repeat(
        ' ',
        (longest.current_version - d.current_version@.len()) as nat,
    ) + " -> "@ + spec_date_display(d.latest_version_date) + " "@ + d.latest_version@
        + spec_repeat(' ', (longest.latest_version - d.latest_version@.len()) as nat) + "  "@
        + spec_or_none(d.repository) + " - "@ + spec_desc60(d.description)
}

/// The headline: how many of the declared dependencies are outdated.
pub open spec fn spec_header_line(outdated: nat, total: nat) -> Seq<char> {
    spec_decimal(outdated) + " out of the "@ + spec_decimal(total)
        + " direct dependencies are outdated"@
}

/// The list caption: how many rows are marked.
pub open spec fn spec_selected_line(count: nat) -> Seq<char> {
    "Dependencies ("@ + spec_decimal(count) + " selected):"@
}

/// The key help shown under the list.
pub open spec fn spec_footer_line() -> Seq<char> {
    "Use arrow keys to navigate, <a> to select all, <i> to invert, <space> to select/deselect, <enter> to update, <esc>/<q> to exit"@
}

/// Writes the date part of a timestamp field, or `none`.
fn date_display(o: &Option<String>) -> (r: &str)
    ensures
        r@ == spec_date_display(*o),
{
    match o {
        Some(s) => match date_part(s.as_str()) {
            Some(d) => d,
            None => "none",
        },
        None => "none",
    }
}

/// Writes one result row, matching `spec_render_row` exactly.
pub fn render_dependency(d: &Dependency, sel: bool, longest: Longest) -> (r: String)
    requires
        d.name@.len() <= longest.name,
        d.current_version@.len() <= longest.current_version,
        d.latest_version@.len() <= longest.latest_version,
    ensures
        r@ == spec_render_row(*d, sel, longest),
{
    let mut row = if sel {
        "\u{25cf}".to_owned()
    } else {
        "\u{25cb}".to_owned()
    };
    row.append(" ");
    row.append(d.name.as_str());
    let name_len = d.name.as_str().unicode_len();
    let pad_name = spaces(longest.name - name_len);
    row.append(pad_name.as_str());
    row.append("  ");
    row.append(date_display(&d.current_version_date));
    row.append(" ");
    row.append(d.current_version.as_str());
    let cur_len = d.current_version.as_str().unicode_len();
    let pad_cur = spaces(longest.current_version - cur_len);
    row.append(pad_cur.as_str());
    row.append(" -> ");
    row.append(date_display(&d.latest_version_date));
    row.append(" ");
    row.append(d.latest_version.as_str());
    let latest_len = d.latest_version.as_str().unicode_len();
    let pad_latest = spaces(longest.latest_version - latest_len);
    row.append(pad_latest.as_str());
    row.append("  ");
    match &d.repository {
        Some(repo) => {
            row.append(repo.as_str());
        },
        None => {
            row.append("none");
        },
    }
    row.append(" - ");
    match &d.description {
        Some(desc) => {
            let dlen = desc.as_str().unicode_len();
            if dlen <= 60 {
                row.append(desc.as_str());
                proof {
                    assert(row@ =~= spec_render_row(*d, sel, longest));
                }
            } else {
                let cut = desc.as_str().substring_char(0, 60);
                row.append(cut);
                proof {
                    assert(row@ =~= spec_render_row(*d, sel, longest));
                }
            }
        },
        None => {
            proof {
                assert(row@ =~= spec_render_row(*d, sel, longest));
            }
        },
    }
    row
}

impl State {
    /// Writes the whole selection screen as plain text lines: the
    /// headline, the list caption, one row per result (or the empty
    /// notice), and the key help.
    #[verifier::loop_isolation(false)]
    pub fn render(&self) -> (r: Vec<String>)
        requires
            self.wf(),
        ensures
            r@.len() == 3 + (if self.outdated_deps@.len() == 0 {
                1int
            } else {
                self.outdated_deps@.len() as int
            }),
            r@[0]@ == spec_header_line(self.outdated_deps@.len(), self.total_deps as nat),
            r@[1]@ == spec_selected_line(spec_count_selected(self.selected@)),
            self.outdated_deps@.len() == 0 ==> r@[2]@ == "No dependencies found"@,
            forall|i: int|
                0 <= i < self.outdated_deps@.len() ==> (#[trigger] r@[2 + i])@ == spec_render_row(
                    self.outdated_deps@[i],
                    self.selected@[i],
                    self.longest_attributes,
                ),
            r@[r@.len() - 1]@ == spec_footer_line(),
    {
        let mut out: Vec<String> = Vec::new();
        let mut header = decimal_string(self.outdated_deps.len());
        header.append(" out of the ");
        let total_text = decimal_string(self.total_deps);
        header.append(total_text.as_str());
        header.append(" direct dependencies are outdated");
        out.push(header);
        let n = self.selected.len();
        let mut count: usize = 0;
        let mut i: usize = 0;
        proof {
            assert(self.selected@.subrange(0, 0) =~= Seq::<bool>::empty());
        }
        while i < n
            invariant
                i <= n,
                n == self.selected@.len(),
                count as nat == spec_count_selected(self.selected@.subrange(0, i as int)),
                count <= i,
            decreases n - i,
        {
            proof {
                assert(self.selected@.subrange(0, i + 1).drop_last() =~= self.selected@.subrange(
                    0,
                    i as int,
                ));
                assert(self.selected@.subrange(0, i + 1).last() == self.selected@[i as int]);
            }
            if self.selected[i] {
                count = count + 1;
            }
            i = i + 1;
        }
        proof {
            assert(self.selected@.subrange(0, n as int) =~= self.selected@);
        }
        let mut caption = "Dependencies (".to_owned();
        let count_text = decimal_string(count);
        caption.append(count_text.as_str());
        caption.append(" selected):");
        out.push(caption);
        let deps_len = self.outdated_deps.len();
        if deps_len == 0 {
            out.push("No dependencies found".to_owned());
        } else {
            let mut j: usize = 0;
            proof {
                lemma_longest_covers(self.outdated_deps@);
            }
            while j < deps_len
                invariant
                    j <= deps_len,
                    out@.len() == 2 + j,
                    forall|k: int|
                        0 <= k < j ==> (#[trigger] out@[2 + k])@ == spec_render_row(
                            self.outdated_deps@[k],
                            self.selected@[k],
                            self.longest_attributes,
                        ),
                    out@[0]@ == spec_header_line(
                        self.outdated_deps@.len(),
                        self.total_deps as nat,
                    ),
                    out@[1]@ == spec_selected_line(spec_count_selected(self.selected@)),
                decreases deps_len - j,
            {
                let row = render_dependency(
                    self.outdated_deps.get(j),
                    self.selected[j],
                    self.longest_attributes,
                );
                out.push(row);
                j = j + 1;
            }
        }
        out.push(
            "Use arrow keys to navigate, <a> to select all, <i> to invert, <space> to select/deselect, <enter> to update, <esc>/<q> to exit".to_owned(),
        );
        out
    }
}

} // verus!
