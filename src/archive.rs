//! Archive entries: where each one may be written, and what extracting it does.
use vstd::prelude::*;
use crate::names::{
    has_aiff_suffix, is_separator, is_normal_component, normalized_audio_name,
    normalize_audio_extension, views,
};

verus! {

/// The components of `s`, cut at every separator; empty pieces are kept.
pub open spec fn split_components(s: Seq<char>) -> Seq<Seq<char>>
    decreases s.len(),
{
    if s.len() == 0 {
        seq![Seq::empty()]
    } else {
        let prev = split_components(s.drop_last());
        if is_separator(s.last()) {
            prev.push(Seq::empty())
        } else {
            prev.update(prev.len() - 1, prev.last().push(s.last()))
        }
    }
}

/// One component applied to the directories walked so far: empty and `.` stay,
/// `..` climbs one level (there is none above the destination), anything else
/// descends unless it holds NUL.
pub open spec fn resolve_step(walked: Seq<Seq<char>>, c: Seq<char>) -> Option<Seq<Seq<char>>> {
    if c.len() == 0 || c == seq!['.'] {
        Some(walked)
    } else if c == seq!['.', '.'] {
        if walked.len() == 0 {
            None
        } else {
            Some(walked.drop_last())
        }
    } else if exists|i: int| 0 <= i < c.len() && c[i] == '\0' {
        None
    } else {
        Some(walked.push(c))
    }
}

/// The components left after walking `cs` from the destination, or `None`
/// where the walk would leave it.
pub open spec fn resolve_components(cs: Seq<Seq<char>>) -> Option<Seq<Seq<char>>>
    decreases cs.len(),
{
    if cs.len() == 0 {
        Some(Seq::empty())
    } else {
        match resolve_components(cs.drop_last()) {
            None => None,
            Some(walked) => resolve_step(walked, cs.last()),
        }
    }
}

/// Where an entry with stored path `name` lands below the destination, as
/// components: `None` for a rooted path, a path that climbs out, or one that
/// names the destination itself.
pub open spec fn sandboxed_path(name: Seq<char>) -> Option<Seq<Seq<char>>> {
    if name.len() > 0 && is_separator(name[0]) {
        None
    } else {
        match resolve_components(split_components(name)) {
            Some(walked) => if walked.len() > 0 {
                Some(walked)
            } else {
                None
            },
            None => None,
        }
    }
}

/// Every component descends one level: a path made of them stays below the
/// directory it is joined to.
pub open spec fn stays_below(cs: Seq<Seq<char>>) -> bool {
    forall|i: int| 0 <= i < cs.len() ==> is_normal_component(#[trigger] cs[i])
}

proof fn lemma_split_nonempty(s: Seq<char>)
    ensures
        split_components(s).len() >= 1,
    decreases s.len(),
{
    if s.len() > 0 {
        lemma_split_nonempty(s.drop_last());
    }
}

/// Cuts `name` at its separators.
fn split_path(name: &str) -> (r: Vec<String>)
    ensures
        views(r@) == split_components(name@),
{
    let n = name.unicode_len();
    let mut done: Vec<String> = Vec::new();
    let mut start: usize = 0;
    let mut i: usize = 0;
    proof {
        assert(name@.take(0) =~= Seq::<char>::empty());
        assert(views(done@) =~= Seq::<Seq<char>>::empty());
        assert(name@.subrange(0, 0) =~= Seq::<char>::empty());
        assert(seq![Seq::<char>::empty()] =~= Seq::<Seq<char>>::empty().push(Seq::empty()));
    }
    while i < n
        invariant
            n == name@.len(),
            start <= i <= n,
            split_components(name@.take(i as int)) == views(done@).push(
                name@.subrange(start as int, i as int),
            ),
        decreases n - i,
    {
        let ch = name.get_char(i);
        proof {
            let s = name@.take(i + 1);
            assert(s.drop_last() =~= name@.take(i as int));
            assert(s.last() == ch);
            lemma_split_nonempty(s.drop_last());
        }
        if ch == '/' || ch == '\\' {
            let piece = String::from_str(name.substring_char(start, i));
            let ghost prior = done@;
            done.push(piece);
            start = i + 1;
            proof {
                assert(views(done@) =~= views(prior).push(piece@)) by {
                    assert(views(done@).len() == views(prior).len() + 1);
                }
                assert(name@.subrange(start as int, i + 1) =~= Seq::<char>::empty());
            }
        } else {
            proof {
                assert(name@.subrange(start as int, i + 1) =~= name@.subrange(
                    start as int,
                    i as int,
                ).push(ch));
            }
        }
        i = i + 1;
    }
    let last = String::from_str(name.substring_char(start, n));
    let ghost before = done@;
    done.push(last);
    proof {
        assert(name@.take(n as int) =~= name@);
        assert(views(done@) =~= views(before).push(last@)) by {
            assert(views(done@).len() == views(before).len() + 1);
        }
    }
    done
}

proof fn lemma_resolve_failure_persists(cs: Seq<Seq<char>>, k: int)
    requires
        0 <= k <= cs.len(),
        resolve_components(cs.take(k)) is None,
    ensures
        resolve_components(cs) is None,
    decreases cs.len() - k,
{
    if k < cs.len() {
        let next = cs.take(k + 1);
        assert(next.drop_last() =~= cs.take(k));
        lemma_resolve_failure_persists(cs, k + 1);
    } else {
        assert(cs.take(k) =~= cs);
    }
}

fn is_single_dot(c: &str) -> (r: bool)
    ensures
        r == (c@ == seq!['.']),
{
    let n = c.unicode_len();
    if n == 1 && c.get_char(0) == '.' {
        assert(c@ =~= seq!['.']);
        true
    } else {
        assert(c@ != seq!['.']) by {
            if n == 1 {
                assert(seq!['.'][0] == '.');
            }
        }
        false
    }
}

fn is_double_dot(c: &str) -> (r: bool)
    ensures
        r == (c@ == seq!['.', '.']),
{
    let n = c.unicode_len();
    if n == 2 && c.get_char(0) == '.' && c.get_char(1) == '.' {
        assert(c@ =~= seq!['.', '.']);
        true
    } else {
        assert(c@ != seq!['.', '.']) by {
            if n == 2 {
                assert(seq!['.', '.'][0] == '.' && seq!['.', '.'][1] == '.');
            }
        }
        false
    }
}

fn holds_nul(c: &str) -> (r: bool)
    ensures
        r == exists|i: int| 0 <= i < c@.len() && c@[i] == '\0',
{
    let n = c.unicode_len();
    let mut i: usize = 0;
    while i < n
        invariant
            n == c@.len(),
            i <= n,
            forall|j: int| 0 <= j < i ==> c@[j] != '\0',
        decreases n - i,
    {
        if c.get_char(i) == '\0' {
            return true;
        }
        i = i + 1;
    }
    false
}

/// Walks `parts` from the destination, keeping the directories descended into.
fn resolve_parts(parts: &Vec<String>) -> (r: Option<Vec<String>>)
    ensures
        match r {
            Some(w) => resolve_components(views(parts@)) == Some(views(w@)),
            None => resolve_components(views(parts@)) is None,
        },
{
    let mut walked: Vec<String> = Vec::new();
    let mut i: usize = 0;
    proof {
        assert(views(parts@).take(0) =~= Seq::<Seq<char>>::empty());
        assert(views(walked@) =~= Seq::<Seq<char>>::empty());
    }
    while i < parts.len()
        invariant
            i <= parts.len(),
            resolve_components(views(parts@).take(i as int)) == Some(views(walked@)),
        decreases parts.len() - i,
    {
        let c = &parts[i];
        let ghost pre = views(walked@);
        proof {
            let t = views(parts@).take(i + 1);
            assert(t.drop_last() =~= views(parts@).take(i as int));
            assert(t.last() == c@);
        }
        if c.unicode_len() == 0 || is_single_dot(c.as_str()) {
        } else if is_double_dot(c.as_str()) {
            if walked.len() == 0 {
                proof {
                    lemma_resolve_failure_persists(views(parts@), i + 1);
                }
                return None;
            }
            walked.pop();
            proof {
                assert(views(walked@) =~= pre.drop_last());
            }
        } else if holds_nul(c.as_str()) {
            proof {
                lemma_resolve_failure_persists(views(parts@), i + 1);
            }
            return None;
        } else {
            walked.push(c.clone());
            proof {
                assert(views(walked@) =~= pre.push(c@)) by {
                    assert(views(walked@).len() == pre.len() + 1);
                }
            }
        }
        i = i + 1;
    }
    proof {
        assert(views(parts@).take(parts.len() as int) =~= views(parts@));
    }
    Some(walked)
}

/// The components below the destination that an entry stored as `name` is
/// written to: its sandboxed path with the last component's audio extension
/// normalized.
pub open spec fn entry_target(name: Seq<char>) -> Option<Seq<Seq<char>>> {
    match sandboxed_path(name) {
        Some(cs) => Some(cs.update(cs.len() - 1, normalized_audio_name(cs.last()))),
        None => None,
    }
}

/// Computes the sandboxed path of an entry: `None` where the stored path is
/// rooted, climbs above the destination or names the destination itself.
pub fn sandbox_entry_path(name: &str) -> (r: Option<Vec<String>>)
    ensures
        match r {
            Some(cs) => sandboxed_path(name@) == Some(views(cs@)),
            None => sandboxed_path(name@) is None,
        },
{
    let n = name.unicode_len();
    if n > 0 {
        let first = name.get_char(0);
        if first == '/' || first == '\\' {
            return None;
        }
    }
    let parts = split_path(name);
    match resolve_parts(&parts) {
        Some(walked) => {
            if walked.len() > 0 {
                Some(walked)
            } else {
                None
            }
        },
        None => None,
    }
}

/// The components, below the archive's directory, that the entry stored as
/// `name` is written to; `None` for an entry that would land outside it.
pub fn entry_target_path(name: &str) -> (r: Option<Vec<String>>)
    ensures
        match r {
            Some(cs) => entry_target(name@) == Some(views(cs@)),
            None => entry_target(name@) is None,
        },
{
    match sandbox_entry_path(name) {
        Some(mut cs) => {
            let k = cs.len() - 1;
            let last = normalize_audio_extension(cs[k].as_str());
            let ghost pre = views(cs@);
            cs.set(k, last);
            proof {
                assert(views(cs@) =~= pre.update(k as int, normalized_audio_name(pre.last())));
            }
            Some(cs)
        },
        None => None,
    }
}

proof fn lemma_split_pieces_unseparated(s: Seq<char>)
    ensures
        forall|j: int, i: int|
            0 <= j < split_components(s).len() && 0 <= i < split_components(s)[j].len()
                ==> !is_separator(#[trigger] split_components(s)[j][i]),
    decreases s.len(),
{
    if s.len() > 0 {
        lemma_split_pieces_unseparated(s.drop_last());
        lemma_split_nonempty(s.drop_last());
        let prev = split_components(s.drop_last());
        let cur = split_components(s);
        if !is_separator(s.last()) {
            assert forall|j: int, i: int| 0 <= j < cur.len() && 0 <= i < cur[j].len() implies
                !is_separator(#[trigger] cur[j][i]) by {
                if j == prev.len() - 1 {
                    assert(cur[j] == prev.last().push(s.last()));
                    if i < prev.last().len() {
                        assert(cur[j][i] == prev[j][i]);
                    }
                } else {
                    assert(cur[j] == prev[j]);
                }
            }
        } else {
            assert forall|j: int, i: int| 0 <= j < cur.len() && 0 <= i < cur[j].len() implies
                !is_separator(#[trigger] cur[j][i]) by {
                if j < prev.len() {
                    assert(cur[j] == prev[j]);
                }
            }
        }
    }
}

proof fn lemma_resolved_normal(cs: Seq<Seq<char>>)
    requires
        forall|j: int, i: int|
            0 <= j < cs.len() && 0 <= i < cs[j].len() ==> !is_separator(#[trigger] cs[j][i]),
    ensures
        resolve_components(cs) matches Some(w) ==> stays_below(w),
    decreases cs.len(),
{
    if cs.len() > 0 {
        let prev = cs.drop_last();
        assert forall|j: int, i: int| 0 <= j < prev.len() && 0 <= i < prev[j].len() implies
            !is_separator(#[trigger] prev[j][i]) by {
            assert(prev[j] == cs[j]);
        }
        lemma_resolved_normal(prev);
        if let Some(w0) = resolve_components(prev) {
            let c = cs.last();
            if let Some(w) = resolve_step(w0, c) {
                if w =~= w0.push(c) {
                    assert(c == cs[cs.len() - 1]);
                    assert forall|i: int| 0 <= i < c.len() implies !is_separator(#[trigger] c[i]) by {
                        assert(c[i] == cs[cs.len() - 1][i]);
                    }
                    assert forall|i: int| 0 <= i < w.len() implies is_normal_component(
                        #[trigger] w[i],
                    ) by {
                        if i < w0.len() {
                            assert(w[i] == w0[i]);
                        }
                    }
                } else if c.len() == 0 || c == seq!['.'] {
                    assert(w == w0);
                } else {
                    assert(w =~= w0.drop_last());
                    assert forall|i: int| 0 <= i < w.len() implies is_normal_component(
                        #[trigger] w[i],
                    ) by {
                        assert(w[i] == w0[i]);
                    }
                }
            }
        }
    }
}

proof fn lemma_normalized_stays_normal(c: Seq<char>)
    requires
        is_normal_component(c),
    ensures
        is_normal_component(normalized_audio_name(c)),
{
    if has_aiff_suffix(c) {
        let d = c.drop_last();
        let t = c.subrange(c.len() - 5, c.len() as int);
        assert(t[3] == 'f' && t[2] == 'i');
        assert(d[d.len() - 1] == t[3] && d[d.len() - 2] == t[2]);
        assert(d != seq!['.']) by {
            assert(d.len() >= 4);
        }
        assert(d != seq!['.', '.']) by {
            assert(d.len() >= 4);
        }
        assert forall|i: int| 0 <= i < d.len() implies !is_separator(#[trigger] d[i]) && d[i]
            != '\0' by {
            assert(d[i] == c[i]);
        }
    }
}

/// Extraction stays inside the archive's directory: the target of every entry
/// that is not rejected is a non-empty run of plain components, each of which
/// descends one level, so joined to the destination it names a path below it.
pub proof fn lemma_entry_target_stays_below(name: Seq<char>)
    ensures
        entry_target(name) matches Some(cs) ==> cs.len() > 0 && stays_below(cs),
{
    lemma_split_pieces_unseparated(name);
    lemma_resolved_normal(split_components(name));
    if let Some(w) = sandboxed_path(name) {
        let cs = w.update(w.len() - 1, normalized_audio_name(w.last()));
        lemma_normalized_stays_normal(w.last());
        assert forall|i: int| 0 <= i < cs.len() implies is_normal_component(#[trigger] cs[i]) by {
            if i < w.len() - 1 {
                assert(cs[i] == w[i]);
            }
        }
    }
}

proof fn lemma_split_unseparated_prefix(s: Seq<char>)
    requires
        forall|i: int| 0 <= i < s.len() ==> !is_separator(#[trigger] s[i]),
    ensures
        split_components(s) == seq![s],
    decreases s.len(),
{
    if s.len() > 0 {
        lemma_split_unseparated_prefix(s.drop_last());
        assert(s.drop_last().push(s.last()) =~= s);
        assert(seq![s.drop_last()].update(0, s.drop_last().push(s.last())) =~= seq![s]);
    } else {
        assert(s =~= Seq::<char>::empty());
    }
}

proof fn lemma_split_head(s: Seq<char>, k: int, j: int)
    requires
        0 <= k < j <= s.len(),
        is_separator(s[k]),
        forall|i: int| 0 <= i < k ==> !is_separator(#[trigger] s[i]),
    ensures
        split_components(s.take(j)).len() >= 2,
        split_components(s.take(j))[0] == s.take(k),
    decreases j - k,
{
    let t = s.take(j);
    assert(t.drop_last() =~= s.take(j - 1));
    lemma_split_nonempty(t.drop_last());
    if j == k + 1 {
        lemma_split_unseparated_prefix(s.take(k));
        assert(t.last() == s[k]);
    } else {
        lemma_split_head(s, k, j - 1);
    }
}

/// An entry whose stored path starts by climbing (`..` followed by a
/// separator) is rejected whatever follows.
pub proof fn lemma_climbing_entry_rejected(rest: Seq<char>)
    ensures
        entry_target(seq!['.', '.', '/'] + rest) is None,
        entry_target(seq!['.', '.', '\\'] + rest) is None,
{
    lemma_climb_rejected(seq!['.', '.', '/'] + rest);
    lemma_climb_rejected(seq!['.', '.', '\\'] + rest);
}

proof fn lemma_climb_rejected(s: Seq<char>)
    requires
        s.len() >= 3,
        s[0] == '.' && s[1] == '.' && is_separator(s[2]),
    ensures
        entry_target(s) is None,
{
    lemma_split_head(s, 2, s.len() as int);
    assert(s.take(s.len() as int) =~= s);
    let cs = split_components(s);
    assert(cs[0] =~= seq!['.', '.']);
    let first = cs.take(1);
    assert(first.drop_last() =~= Seq::<Seq<char>>::empty());
    assert(first.last() == cs[0]);
    assert(resolve_components(first.drop_last()) == Some(Seq::<Seq<char>>::empty()));
    assert(cs[0].len() == 2);
    assert(seq!['.'].len() == 1);
    assert(cs[0] != seq!['.']);
    assert(resolve_step(Seq::empty(), cs[0]) is None);
    assert(resolve_components(first) is None);
    lemma_resolve_failure_persists(cs, 1);
}

/// What extracting one entry does to the destination.
#[derive(Debug, PartialEq, Eq)]
pub enum EntryAction {
    /// The stored path would leave the destination: nothing is written.
    Rejected,
    /// A directory entry: the directory and its ancestors are created.
    MakeDirectory(Vec<String>),
    /// A file entry: the target is created or truncated and the entry's bytes
    /// are copied into it.
    WriteFile(Vec<String>),
    /// A file entry whose target is already present while overwriting is off:
    /// it is left as it is.
    KeepExisting(Vec<String>),
}

/// An `EntryAction` with its target as components.
pub enum EntryOutcome {
    Rejected,
    MakeDirectory(Seq<Seq<char>>),
    WriteFile(Seq<Seq<char>>),
    KeepExisting(Seq<Seq<char>>),
}

impl View for EntryAction {
    type V = EntryOutcome;

    open spec fn view(&self) -> EntryOutcome {
        match self {
            EntryAction::Rejected => EntryOutcome::Rejected,
            EntryAction::MakeDirectory(cs) => EntryOutcome::MakeDirectory(views(cs@)),
            EntryAction::WriteFile(cs) => EntryOutcome::WriteFile(views(cs@)),
            EntryAction::KeepExisting(cs) => EntryOutcome::KeepExisting(views(cs@)),
        }
    }
}

/// What becomes of the entry stored as `name`, given whether its target is
/// already present.
pub open spec fn entry_outcome(
    name: Seq<char>,
    is_dir: bool,
    target_present: bool,
    overwrite: bool,
) -> EntryOutcome {
    match entry_target(name) {
        None => EntryOutcome::Rejected,
        Some(t) => if is_dir {
            EntryOutcome::MakeDirectory(t)
        } else if target_present && !overwrite {
            EntryOutcome::KeepExisting(t)
        } else {
            EntryOutcome::WriteFile(t)
        },
    }
}

/// Decides what to do with one archive entry: reject a path that would leave
/// the destination, create a directory, skip a file whose target is present
/// when `overwrite` is off, and otherwise write the file.
pub fn entry_action(name: &str, is_dir: bool, target_present: bool, overwrite: bool) -> (r:
    EntryAction)
    ensures
        r@ == entry_outcome(name@, is_dir, target_present, overwrite),
{
    match entry_target_path(name) {
        None => EntryAction::Rejected,
        Some(t) => {
            if is_dir {
                EntryAction::MakeDirectory(t)
            } else if target_present && !overwrite {
                EntryAction::KeepExisting(t)
            } else {
                EntryAction::WriteFile(t)
            }
        },
    }
}

/// The targets of the entries of `es` (stored path, is-directory) that are
/// not rejected.
pub open spec fn targets_of(es: Seq<(Seq<char>, bool)>) -> Set<Seq<Seq<char>>> {
    Set::new(|t: Seq<Seq<char>>| exists|i: int| 0 <= i < es.len() && entry_target(es[i].0) == Some(t))
}

/// The paths below the destination that are present once `es` has been
/// extracted onto a destination holding `start`.
pub open spec fn present_after(es: Seq<(Seq<char>, bool)>, start: Set<Seq<Seq<char>>>) -> Set<
    Seq<Seq<char>>,
> {
    start.union(targets_of(es))
}

pub open spec fn target_in(name: Seq<char>, present: Set<Seq<Seq<char>>>) -> bool {
    entry_target(name) matches Some(t) && present.contains(t)
}

/// What each entry of `es` comes to when they are extracted in order onto a
/// destination holding `start`: each one sees the paths written before it.
pub open spec fn run_outcomes(
    es: Seq<(Seq<char>, bool)>,
    start: Set<Seq<Seq<char>>>,
    overwrite: bool,
) -> Seq<EntryOutcome> {
    Seq::new(
        es.len(),
        |i: int|
            entry_outcome(
                es[i].0,
                es[i].1,
                target_in(es[i].0, present_after(es.take(i), start)),
                overwrite,
            ),
    )
}

/// Without overwriting, what is already in the destination changes the fate of
/// no entry but those whose own target it holds: each of those is kept as it
/// is instead of written, and every other entry fares as on an empty
/// destination.
pub proof fn lemma_present_target_only_skipped(
    es: Seq<(Seq<char>, bool)>,
    start: Set<Seq<Seq<char>>>,
    i: int,
)
    requires
        0 <= i < es.len(),
    ensures
        run_outcomes(es, start, false)[i] != run_outcomes(es, Set::empty(), false)[i] ==> (
        entry_target(es[i].0) matches Some(t) && start.contains(t) && !es[i].1 && run_outcomes(
            es,
            start,
            false,
        )[i] == EntryOutcome::KeepExisting(t) && run_outcomes(es, Set::empty(), false)[i]
            == EntryOutcome::WriteFile(t)),
{
    let pre = es.take(i);
    if let Some(t) = entry_target(es[i].0) {
        if present_after(pre, Set::empty()).contains(t) {
            assert(present_after(pre, start).contains(t));
        }
    }
}

/// With overwriting on, an extraction does the same whatever the destination
/// holds, so running it again on its own output writes the same files and
/// leaves the same set of paths.
pub proof fn lemma_overwrite_run_repeatable(
    es: Seq<(Seq<char>, bool)>,
    start: Set<Seq<Seq<char>>>,
    other: Set<Seq<Seq<char>>>,
)
    ensures
        run_outcomes(es, start, true) == run_outcomes(es, other, true),
        run_outcomes(es, present_after(es, start), true) == run_outcomes(es, start, true),
        present_after(es, present_after(es, start)) == present_after(es, start),
{
    assert(run_outcomes(es, start, true) =~= run_outcomes(es, other, true));
    assert(run_outcomes(es, present_after(es, start), true) =~= run_outcomes(es, start, true));
    assert(present_after(es, present_after(es, start)) =~= present_after(es, start));
}

} // verus!
