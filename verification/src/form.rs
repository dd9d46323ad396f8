//! App-level form state: option text and dropdown selections keyed by
//! (tool id, field key), and the files chosen for each tool.
//!
//! The states are kept in `Vec`s of (key, value) entries with each key at
//! most once (`distinct_keys`, `distinct_keyed`). The keys are strings, and
//! for string keys a hash map's contents can not be followed through its
//! operations here; lookups by key are stated over the entries instead.

use vstd::prelude::*;
use crate::dispatch::str_eq;
use crate::tools::{find_tool, tool_ids};

verus! {

/// Text typed into an input field.
#[derive(Debug)]
pub struct InputState {
    pub text: String,
}

impl InputState {
    /// An empty input.
    pub fn new() -> (s: Self)
        ensures
            s.text@ == Seq::<char>::empty(),
    {
        InputState { text: String::new() }
    }
}

/// Selected entry of a dropdown.
#[derive(Debug, Clone, Copy, PartialEq, Eq, Structural)]
pub struct SelectState {
    pub selected_index: usize,
}

/// Files chosen for a tool's drop zone.
#[derive(Debug)]
pub struct DropZoneState {
    /// The chosen paths.
    pub files: Vec<String>,
    /// Whether a file dialog is open for it.
    pub dialog_pending: bool,
}

impl DropZoneState {
    /// No files, no dialog.
    pub fn new() -> (s: Self)
        ensures
            s.files@.len() == 0,
            !s.dialog_pending,
    {
        DropZoneState { files: Vec::new(), dialog_pending: false }
    }
}

/// Form state keyed by (tool_id, field_key).
#[derive(Debug)]
pub struct FormState {
    entries: Vec<(&'static str, &'static str, InputState)>,
    selects: Vec<(&'static str, &'static str, SelectState)>,
}

/// The entry for (tool, key) among `entries`, if any (keys are distinct).
pub open spec fn entry_of<V>(entries: Seq<(Seq<char>, Seq<char>, V)>, tool: Seq<char>, key: Seq<char>) -> Option<V> {
    if exists|k: int| 0 <= k < entries.len() && (#[trigger] entries[k]).0 == tool && entries[k].1 == key {
        let k = choose|k: int| 0 <= k < entries.len() && (#[trigger] entries[k]).0 == tool && entries[k].1 == key;
        Some(entries[k].2)
    } else {
        None
    }
}

/// No (tool, key) pair occurs twice.
pub open spec fn distinct_keys<V>(entries: Seq<(Seq<char>, Seq<char>, V)>) -> bool {
    forall|i: int, j: int| 0 <= i < j < entries.len() ==>
        !((#[trigger] entries[i]).0 == (#[trigger] entries[j]).0 && entries[i].1 == entries[j].1)
}

impl FormState {
    /// The text entries, by (tool, key, text).
    pub closed spec fn entries(&self) -> Seq<(Seq<char>, Seq<char>, Seq<char>)> {
        self.entries@.map_values(|e: (&'static str, &'static str, InputState)| (e.0@, e.1@, e.2.text@))
    }

    /// The dropdown selections, by (tool, key, selected index).
    pub closed spec fn selects(&self) -> Seq<(Seq<char>, Seq<char>, usize)> {
        self.selects@.map_values(|e: (&'static str, &'static str, SelectState)| (e.0@, e.1@, e.2.selected_index))
    }

    /// Each (tool, key) has at most one entry and one selection.
    pub open spec fn wf(&self) -> bool {
        distinct_keys(self.entries()) && distinct_keys(self.selects())
    }

    /// An empty form.
    pub fn new() -> (f: Self)
        ensures
            f.wf(),
            f.entries().len() == 0,
            f.selects().len() == 0,
    {
        let f = FormState { entries: Vec::new(), selects: Vec::new() };
        assert(f.entries() =~= Seq::<(Seq<char>, Seq<char>, Seq<char>)>::empty());
        assert(f.selects() =~= Seq::<(Seq<char>, Seq<char>, usize)>::empty());
        f
    }

    /// Position of the text entry for (tool, key).
    fn entry_index(&self, tool: &str, key: &str) -> (r: Option<usize>)
        requires
            self.wf(),
        ensures
            r is None ==> entry_of(self.entries(), tool@, key@) is None,
            r matches Some(i) ==> i < self.entries().len() && self.entries()[i as int].0 == tool@
                && self.entries()[i as int].1 == key@ && entry_of(self.entries(), tool@, key@) == Some(self.entries()[i as int].2),
    {
        let mut i: usize = 0;
        while i < self.entries.len()
            invariant
                self.wf(),
                self.entries().len() == self.entries@.len(),
                i <= self.entries@.len(),
                forall|j: int| 0 <= j < i ==> !((#[trigger] self.entries()[j]).0 == tool@ && self.entries()[j].1 == key@),
            decreases self.entries@.len() - i,
        {
            if str_eq(self.entries[i].0, tool) && str_eq(self.entries[i].1, key) {
                proof {
                    let es = self.entries();
                    assert(es[i as int].0 == tool@ && es[i as int].1 == key@);
                    let k = choose|k: int| 0 <= k < es.len() && (#[trigger] es[k]).0 == tool@ && es[k].1 == key@;
                    if k < i {
                        assert(!(es[k].0 == tool@ && es[k].1 == key@));
                    } else if k > i {
                        assert(!(es[i as int].0 == es[k].0 && es[i as int].1 == es[k].1));
                    }
                }
                return Some(i);
            }
            i = i + 1;
        }
        None
    }

    /// Position of the selection for (tool, key).
    fn select_index(&self, tool: &str, key: &str) -> (r: Option<usize>)
        requires
            self.wf(),
        ensures
            r is None ==> entry_of(self.selects(), tool@, key@) is None,
            r matches Some(i) ==> i < self.selects().len() && self.selects()[i as int].0 == tool@
                && self.selects()[i as int].1 == key@ && entry_of(self.selects(), tool@, key@) == Some(self.selects()[i as int].2),
    {
        let mut i: usize = 0;
        while i < self.selects.len()
            invariant
                self.wf(),
                self.selects().len() == self.selects@.len(),
                i <= self.selects@.len(),
                forall|j: int| 0 <= j < i ==> !((#[trigger] self.selects()[j]).0 == tool@ && self.selects()[j].1 == key@),
            decreases self.selects@.len() - i,
        {
            if str_eq(self.selects[i].0, tool) && str_eq(self.selects[i].1, key) {
                proof {
                    let es = self.selects();
                    assert(es[i as int].0 == tool@ && es[i as int].1 == key@);
                    let k = choose|k: int| 0 <= k < es.len() && (#[trigger] es[k]).0 == tool@ && es[k].1 == key@;
                    if k < i {
                        assert(!(es[k].0 == tool@ && es[k].1 == key@));
                    } else if k > i {
                        assert(!(es[i as int].0 == es[k].0 && es[i as int].1 == es[k].1));
                    }
                }
                return Some(i);
            }
            i = i + 1;
        }
        None
    }

    /// The text entry for (tool, key), if one was created.
    pub fn get(&self, tool_id: &'static str, key: &'static str) -> (r: Option<&InputState>)
        requires
            self.wf(),
        ensures
            match r {
                Some(s) => entry_of(self.entries(), tool_id@, key@) == Some(s.text@),
                None => entry_of(self.entries(), tool_id@, key@) is None,
            },
    {
        match self.entry_index(tool_id, key) {
            Some(i) => Some(&self.entries[i].2),
            None => None,
        }
    }

    /// Replace the text of (tool, key), creating the entry if needed.
    pub fn set_text(&mut self, tool_id: &'static str, key: &'static str, text: String)
        requires
            old(self).wf(),
        ensures
            final(self).wf(),
            entry_of(final(self).entries(), tool_id@, key@) == Some(text@),
            forall|t: Seq<char>, k: Seq<char>| !(t == tool_id@ && k == key@) ==>
                entry_of(final(self).entries(), t, k) == #[trigger] entry_of(old(self).entries(), t, k),
            final(self).selects() == old(self).selects(),
    {
        let ghost es0 = self.entries();
        match self.entry_index(tool_id, key) {
            Some(i) => {
                self.entries.set(i, (tool_id, key, InputState { text }));
                proof {
                    let es = self.entries();
                    assert(es =~= es0.update(i as int, (tool_id@, key@, text@)));
                    lemma_entry_after_update(es0, i as int, tool_id@, key@, text@);
                }
            },
            None => {
                self.entries.push((tool_id, key, InputState { text }));
                proof {
                    let es = self.entries();
                    assert(es =~= es0.push((tool_id@, key@, text@)));
                    lemma_entry_after_push(es0, tool_id@, key@, text@);
                }
            },
        }
    }

    /// The selection of (tool, key), created at index 0 if missing; an index
    /// past `num_choices` choices (when there are any) is reset to 0.
    pub fn get_or_create_select(&mut self, tool_id: &'static str, key: &'static str, num_choices: usize) -> (r: usize)
        requires
            old(self).wf(),
        ensures
            final(self).wf(),
            r == (match entry_of(old(self).selects(), tool_id@, key@) {
                Some(i) => if num_choices > 0 && i >= num_choices { 0 } else { i },
                None => 0,
            }),
            entry_of(final(self).selects(), tool_id@, key@) == Some(r),
            forall|t: Seq<char>, k: Seq<char>| !(t == tool_id@ && k == key@) ==>
                entry_of(final(self).selects(), t, k) == #[trigger] entry_of(old(self).selects(), t, k),
            final(self).entries() == old(self).entries(),
    {
        let ghost ss0 = self.selects();
        match self.select_index(tool_id, key) {
            Some(i) => {
                let cur = self.selects[i].2.selected_index;
                let v = if num_choices > 0 && cur >= num_choices { 0 } else { cur };
                self.selects.set(i, (tool_id, key, SelectState { selected_index: v }));
                proof {
                    assert(self.selects() =~= ss0.update(i as int, (tool_id@, key@, v)));
                    lemma_entry_after_update(ss0, i as int, tool_id@, key@, v);
                }
                v
            },
            None => {
                self.selects.push((tool_id, key, SelectState { selected_index: 0 }));
                proof {
                    assert(self.selects() =~= ss0.push((tool_id@, key@, 0usize)));
                    lemma_entry_after_push(ss0, tool_id@, key@, 0usize);
                }
                0
            },
        }
    }

    /// Set the selected index of (tool, key), creating the selection if needed.
    pub fn set_selected(&mut self, tool_id: &'static str, key: &'static str, index: usize)
        requires
            old(self).wf(),
        ensures
            final(self).wf(),
            entry_of(final(self).selects(), tool_id@, key@) == Some(index),
            forall|t: Seq<char>, k: Seq<char>| !(t == tool_id@ && k == key@) ==>
                entry_of(final(self).selects(), t, k) == #[trigger] entry_of(old(self).selects(), t, k),
            final(self).entries() == old(self).entries(),
    {
        let ghost ss0 = self.selects();
        match self.select_index(tool_id, key) {
            Some(i) => {
                self.selects.set(i, (tool_id, key, SelectState { selected_index: index }));
                proof {
                    assert(self.selects() =~= ss0.update(i as int, (tool_id@, key@, index)));
                    lemma_entry_after_update(ss0, i as int, tool_id@, key@, index);
                }
            },
            None => {
                self.selects.push((tool_id, key, SelectState { selected_index: index }));
                proof {
                    assert(self.selects() =~= ss0.push((tool_id@, key@, index)));
                    lemma_entry_after_push(ss0, tool_id@, key@, index);
                }
            },
        }
    }

    /// The selected choice of (tool, key): the choice at the selected index
    /// (0 when nothing was selected), or `""` when out of range.
    pub fn select_value(&self, tool_id: &'static str, key: &'static str, choices: &Vec<&'static str>) -> (r: &'static str)
        requires
            self.wf(),
        ensures
            ({
                let idx = match entry_of(self.selects(), tool_id@, key@) {
                    Some(i) => i as int,
                    None => 0,
                };
                if idx < choices@.len() { r == choices@[idx] } else { r@ == ""@ }
            }),
    {
        let idx = match self.select_index(tool_id, key) {
            Some(i) => self.selects[i].2.selected_index,
            None => 0,
        };
        if idx < choices.len() {
            choices[idx]
        } else {
            ""
        }
    }
}

/// Replacing the entry at the position of (tool, key) sets its value and keeps
/// every other key's.
proof fn lemma_entry_after_update<V>(es: Seq<(Seq<char>, Seq<char>, V)>, i: int, tool: Seq<char>, key: Seq<char>, v: V)
    requires
        distinct_keys(es),
        0 <= i < es.len(),
        es[i].0 == tool,
        es[i].1 == key,
    ensures
        distinct_keys(es.update(i, (tool, key, v))),
        entry_of(es.update(i, (tool, key, v)), tool, key) == Some(v),
        forall|t: Seq<char>, k: Seq<char>| !(t == tool && k == key) ==>
            entry_of(es.update(i, (tool, key, v)), t, k) == #[trigger] entry_of(es, t, k),
{
    let after = es.update(i, (tool, key, v));
    assert forall|a: int, b: int| 0 <= a < b < after.len() implies
        !((#[trigger] after[a]).0 == (#[trigger] after[b]).0 && after[a].1 == after[b].1) by {
        assert(!(es[a].0 == es[b].0 && es[a].1 == es[b].1));
    }
    let k = choose|k: int| 0 <= k < after.len() && (#[trigger] after[k]).0 == tool && after[k].1 == key;
    assert(after[i].0 == tool && after[i].1 == key);
    if k != i {
        assert(!(after[i].0 == after[k].0 && after[i].1 == after[k].1));
    }
    assert forall|t: Seq<char>, kk: Seq<char>| !(t == tool && kk == key) implies
        entry_of(after, t, kk) == #[trigger] entry_of(es, t, kk) by {
        if exists|m: int| 0 <= m < after.len() && (#[trigger] after[m]).0 == t && after[m].1 == kk {
            let m = choose|m: int| 0 <= m < after.len() && (#[trigger] after[m]).0 == t && after[m].1 == kk;
            assert(m != i);
            assert(es[m] == after[m]);
            let m2 = choose|m2: int| 0 <= m2 < es.len() && (#[trigger] es[m2]).0 == t && es[m2].1 == kk;
            if m2 != m {
                assert(!(es[m].0 == es[m2].0 && es[m].1 == es[m2].1));
            }
        } else {
            assert forall|m: int| 0 <= m < es.len() implies !((#[trigger] es[m]).0 == t && es[m].1 == kk) by {
                if m != i {
                    assert(es[m] == after[m]);
                }
            }
        }
    }
}

/// Appending an entry for a new (tool, key) sets its value and keeps every
/// other key's.
proof fn lemma_entry_after_push<V>(es: Seq<(Seq<char>, Seq<char>, V)>, tool: Seq<char>, key: Seq<char>, v: V)
    requires
        distinct_keys(es),
        entry_of(es, tool, key) is None,
    ensures
        distinct_keys(es.push((tool, key, v))),
        entry_of(es.push((tool, key, v)), tool, key) == Some(v),
        forall|t: Seq<char>, k: Seq<char>| !(t == tool && k == key) ==>
            entry_of(es.push((tool, key, v)), t, k) == #[trigger] entry_of(es, t, k),
{
    let after = es.push((tool, key, v));
    let n = es.len() as int;
    assert forall|a: int, b: int| 0 <= a < b < after.len() implies
        !((#[trigger] after[a]).0 == (#[trigger] after[b]).0 && after[a].1 == after[b].1) by {
        if b < n {
            assert(!(es[a].0 == es[b].0 && es[a].1 == es[b].1));
        } else {
            assert(after[a] == es[a]);
            assert(!(es[a].0 == tool && es[a].1 == key));
        }
    }
    assert(after[n].0 == tool && after[n].1 == key);
    let k = choose|k: int| 0 <= k < after.len() && (#[trigger] after[k]).0 == tool && after[k].1 == key;
    if k != n {
        assert(after[k] == es[k]);
    }
    assert forall|t: Seq<char>, kk: Seq<char>| !(t == tool && kk == key) implies
        entry_of(after, t, kk) == #[trigger] entry_of(es, t, kk) by {
        if exists|m: int| 0 <= m < after.len() && (#[trigger] after[m]).0 == t && after[m].1 == kk {
            let m = choose|m: int| 0 <= m < after.len() && (#[trigger] after[m]).0 == t && after[m].1 == kk;
            assert(m != n);
            assert(es[m] == after[m]);
            let m2 = choose|m2: int| 0 <= m2 < es.len() && (#[trigger] es[m2]).0 == t && es[m2].1 == kk;
            if m2 != m {
                assert(!(es[m].0 == es[m2].0 && es[m].1 == es[m2].1));
            }
        } else {
            assert forall|m: int| 0 <= m < es.len() implies !((#[trigger] es[m]).0 == t && es[m].1 == kk) by {
                assert(es[m] == after[m]);
            }
        }
    }
}


/// The entry for `key` among `entries`, if any (keys are distinct).
pub open spec fn keyed<V>(entries: Seq<(Seq<char>, V)>, key: Seq<char>) -> Option<V> {
    if exists|k: int| 0 <= k < entries.len() && (#[trigger] entries[k]).0 == key {
        let k = choose|k: int| 0 <= k < entries.len() && (#[trigger] entries[k]).0 == key;
        Some(entries[k].1)
    } else {
        None
    }
}

/// No key occurs twice.
pub open spec fn distinct_keyed<V>(entries: Seq<(Seq<char>, V)>) -> bool {
    forall|i: int, j: int| 0 <= i < j < entries.len() ==> (#[trigger] entries[i]).0 != (#[trigger] entries[j]).0
}

/// The text of each string.
pub open spec fn string_views(v: Seq<String>) -> Seq<Seq<char>> {
    v.map_values(|s: String| s@)
}

/// A drop zone as its files' paths and whether a dialog is open for it.
pub open spec fn drop_view(d: DropZoneState) -> (Seq<Seq<char>>, bool) {
    (string_views(d.files@), d.dialog_pending)
}

/// The drop zones of the tools, keyed by tool id.
#[derive(Debug)]
pub struct DropStates {
    entries: Vec<(&'static str, DropZoneState)>,
}

impl DropStates {
    /// The drop zones, by (tool, (files, dialog pending)).
    pub closed spec fn zones(&self) -> Seq<(Seq<char>, (Seq<Seq<char>>, bool))> {
        self.entries@.map_values(|e: (&'static str, DropZoneState)| (e.0@, drop_view(e.1)))
    }

    /// Each tool has at most one drop zone.
    pub open spec fn wf(&self) -> bool {
        distinct_keyed(self.zones())
    }

    /// No drop zones.
    pub fn new() -> (d: Self)
        ensures
            d.wf(),
            d.zones().len() == 0,
    {
        let d = DropStates { entries: Vec::new() };
        assert(d.zones() =~= Seq::<(Seq<char>, (Seq<Seq<char>>, bool))>::empty());
        d
    }

    fn position(&self, tool: &str) -> (r: Option<usize>)
        requires
            self.wf(),
        ensures
            r is None ==> keyed(self.zones(), tool@) is None,
            r matches Some(i) ==> i < self.zones().len() && self.zones()[i as int].0 == tool@
                && keyed(self.zones(), tool@) == Some(self.zones()[i as int].1),
    {
        let mut i: usize = 0;
        while i < self.entries.len()
            invariant
                self.wf(),
                self.zones().len() == self.entries@.len(),
                i <= self.entries@.len(),
                forall|j: int| 0 <= j < i ==> (#[trigger] self.zones()[j]).0 != tool@,
            decreases self.entries@.len() - i,
        {
            if str_eq(self.entries[i].0, tool) {
                proof {
                    let es = self.zones();
                    assert(es[i as int].0 == tool@);
                    let k = choose|k: int| 0 <= k < es.len() && (#[trigger] es[k]).0 == tool@;
                    if k < i {
                        assert(es[k].0 != tool@);
                    } else if k > i {
                        assert(es[i as int].0 != es[k].0);
                    }
                }
                return Some(i);
            }
            i = i + 1;
        }
        None
    }

    /// The drop zone of `tool`.
    pub fn get(&self, tool: &str) -> (r: Option<&DropZoneState>)
        requires
            self.wf(),
        ensures
            match r {
                Some(d) => keyed(self.zones(), tool@) == Some(drop_view(*d)),
                None => keyed(self.zones(), tool@) is None,
            },
    {
        match self.position(tool) {
            Some(i) => Some(&self.entries[i].1),
            None => None,
        }
    }

    /// Store `zone` as the drop zone of `tool`, replacing or adding it.
    fn put(&mut self, tool: &'static str, zone: DropZoneState, at: Option<usize>)
        requires
            old(self).wf(),
            at is None ==> keyed(old(self).zones(), tool@) is None,
            at matches Some(i) ==> i < old(self).zones().len() && old(self).zones()[i as int].0 == tool@,
        ensures
            final(self).wf(),
            keyed(final(self).zones(), tool@) == Some(drop_view(zone)),
            forall|t: Seq<char>| t != tool@ ==> keyed(final(self).zones(), t) == #[trigger] keyed(old(self).zones(), t),
    {
        let ghost zs0 = self.zones();
        let ghost v = drop_view(zone);
        match at {
            Some(i) => {
                self.entries.set(i, (tool, zone));
                proof {
                    assert(self.zones() =~= zs0.update(i as int, (tool@, v)));
                    lemma_keyed_update(zs0, i as int, tool@, v);
                }
            },
            None => {
                self.entries.push((tool, zone));
                proof {
                    assert(self.zones() =~= zs0.push((tool@, v)));
                    lemma_keyed_push(zs0, tool@, v);
                }
            },
        }
    }

    /// Take the drop zone of `tool` out (a new one when it has none), with
    /// where it stood.
    fn take(&mut self, tool: &'static str) -> (r: (DropZoneState, Option<usize>))
        requires
            old(self).wf(),
        ensures
            final(self).wf(),
            forall|t: Seq<char>| keyed(final(self).zones(), t) == #[trigger] keyed(old(self).zones(), t)
                || t == tool@,
            match keyed(old(self).zones(), tool@) {
                Some(z) => drop_view(r.0) == z,
                None => drop_view(r.0) == (Seq::<Seq<char>>::empty(), false),
            },
            r.1 is None ==> keyed(final(self).zones(), tool@) is None,
            r.1 matches Some(i) ==> i < final(self).zones().len() && final(self).zones()[i as int].0 == tool@,
    {
        match self.position(tool) {
            Some(i) => {
                let ghost zs0 = self.zones();
                let (t, z) = self.entries.remove(i);
                let fresh = DropZoneState::new();
                assert(string_views(fresh.files@) =~= Seq::<Seq<char>>::empty());
                self.entries.insert(i, (t, fresh));
                proof {
                    assert(self.zones() =~= zs0.update(i as int, (tool@, self.zones()[i as int].1)));
                    lemma_keyed_update(zs0, i as int, tool@, self.zones()[i as int].1);
                }
                (z, Some(i))
            },
            None => {
                let z = DropZoneState::new();
                assert(string_views(z.files@) =~= Seq::<Seq<char>>::empty());
                (z, None)
            },
        }
    }

    /// Add a dropped file to the drop zone of `tool`.
    pub fn add_file(&mut self, tool: &'static str, path: String)
        requires
            old(self).wf(),
        ensures
            final(self).wf(),
            keyed(final(self).zones(), tool@) == Some(match keyed(old(self).zones(), tool@) {
                Some(z) => (z.0.push(path@), z.1),
                None => (seq![path@], false),
            }),
            forall|t: Seq<char>| t != tool@ ==> keyed(final(self).zones(), t) == #[trigger] keyed(old(self).zones(), t),
    {
        let ghost zs0 = self.zones();
        let (mut z, at) = self.take(tool);
        let ghost files0 = z.files@;
        z.files.push(path);
        assert(string_views(z.files@) =~= string_views(files0).push(path@));
        self.put(tool, z, at);
    }

    /// Open a file dialog for `tool`'s drop zone unless one is open already
    /// or `tool` is no registry tool. Returns whether a dialog is to be
    /// opened (the zone is then marked as waiting for it).
    pub fn begin_dialog(&mut self, tool: &'static str) -> (opened: bool)
        requires
            old(self).wf(),
        ensures
            final(self).wf(),
            opened == (tool_ids().contains(tool@) && !(keyed(old(self).zones(), tool@) matches Some(z) && z.1)),
            opened ==> keyed(final(self).zones(), tool@) == Some(match keyed(old(self).zones(), tool@) {
                Some(z) => (z.0, true),
                None => (Seq::<Seq<char>>::empty(), true),
            }),
            opened ==> forall|t: Seq<char>| t != tool@ ==> keyed(final(self).zones(), t) == #[trigger] keyed(old(self).zones(), t),
            !opened ==> final(self).zones() == old(self).zones(),
    {
        match find_tool(tool) {
            None => return false,
            Some(_) => {},
        }
        match self.position(tool) {
            Some(i) => {
                if self.entries[i].1.dialog_pending {
                    return false;
                }
            },
            None => {},
        }
        let (mut z, at) = self.take(tool);
        z.dialog_pending = true;
        self.put(tool, z, at);
        true
    }

    /// A file dialog for `tool` closed with `files`: the zone no longer waits
    /// for it, and takes `files` unless none were picked.
    pub fn finish_dialog(&mut self, tool: &'static str, files: Vec<String>)
        requires
            old(self).wf(),
        ensures
            final(self).wf(),
            keyed(final(self).zones(), tool@) == Some((
                if files@.len() > 0 {
                    string_views(files@)
                } else {
                    match keyed(old(self).zones(), tool@) {
                        Some(z) => z.0,
                        None => Seq::<Seq<char>>::empty(),
                    }
                },
                false,
            )),
            forall|t: Seq<char>| t != tool@ ==> keyed(final(self).zones(), t) == #[trigger] keyed(old(self).zones(), t),
    {
        let (mut z, at) = self.take(tool);
        z.dialog_pending = false;
        if files.len() > 0 {
            z.files = files;
        }
        self.put(tool, z, at);
    }
}

/// Replacing the entry at the position of `key` sets its value and keeps
/// every other key's.
proof fn lemma_keyed_update<V>(es: Seq<(Seq<char>, V)>, i: int, key: Seq<char>, v: V)
    requires
        distinct_keyed(es),
        0 <= i < es.len(),
        es[i].0 == key,
    ensures
        distinct_keyed(es.update(i, (key, v))),
        keyed(es.update(i, (key, v)), key) == Some(v),
        forall|t: Seq<char>| t != key ==> keyed(es.update(i, (key, v)), t) == #[trigger] keyed(es, t),
{
    let after = es.update(i, (key, v));
    assert forall|a: int, b: int| 0 <= a < b < after.len() implies
        (#[trigger] after[a]).0 != (#[trigger] after[b]).0 by {
        assert(es[a].0 != es[b].0);
    }
    let k = choose|k: int| 0 <= k < after.len() && (#[trigger] after[k]).0 == key;
    assert(after[i].0 == key);
    if k != i {
        assert(after[i].0 != after[k].0);
    }
    assert forall|t: Seq<char>| t != key implies keyed(after, t) == #[trigger] keyed(es, t) by {
        if exists|m: int| 0 <= m < after.len() && (#[trigger] after[m]).0 == t {
            let m = choose|m: int| 0 <= m < after.len() && (#[trigger] after[m]).0 == t;
            assert(m != i);
            assert(es[m] == after[m]);
            let m2 = choose|m2: int| 0 <= m2 < es.len() && (#[trigger] es[m2]).0 == t;
            if m2 != m {
                assert(es[m].0 != es[m2].0);
            }
        } else {
            assert forall|m: int| 0 <= m < es.len() implies (#[trigger] es[m]).0 != t by {
                if m != i {
                    assert(es[m] == after[m]);
                }
            }
        }
    }
}

/// Appending an entry for a new key sets its value and keeps every other
/// key's.
proof fn lemma_keyed_push<V>(es: Seq<(Seq<char>, V)>, key: Seq<char>, v: V)
    requires
        distinct_keyed(es),
        keyed(es, key) is None,
    ensures
        distinct_keyed(es.push((key, v))),
        keyed(es.push((key, v)), key) == Some(v),
        forall|t: Seq<char>| t != key ==> keyed(es.push((key, v)), t) == #[trigger] keyed(es, t),
{
    let after = es.push((key, v));
    let n = es.len() as int;
    assert forall|a: int, b: int| 0 <= a < b < after.len() implies
        (#[trigger] after[a]).0 != (#[trigger] after[b]).0 by {
        if b < n {
            assert(es[a].0 != es[b].0);
        } else {
            assert(after[a] == es[a]);
        }
    }
    assert(after[n].0 == key);
    let k = choose|k: int| 0 <= k < after.len() && (#[trigger] after[k]).0 == key;
    if k != n {
        assert(after[k] == es[k]);
    }
    assert forall|t: Seq<char>| t != key implies keyed(after, t) == #[trigger] keyed(es, t) by {
        if exists|m: int| 0 <= m < after.len() && (#[trigger] after[m]).0 == t {
            let m = choose|m: int| 0 <= m < after.len() && (#[trigger] after[m]).0 == t;
            assert(m != n);
            assert(es[m] == after[m]);
            let m2 = choose|m2: int| 0 <= m2 < es.len() && (#[trigger] es[m2]).0 == t;
            if m2 != m {
                assert(es[m].0 != es[m2].0);
            }
        } else {
            assert forall|m: int| 0 <= m < es.len() implies (#[trigger] es[m]).0 != t by {
                assert(es[m] == after[m]);
            }
        }
    }
}

} // verus!
