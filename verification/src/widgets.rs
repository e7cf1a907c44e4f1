//! Keeping a list of named widgets in step with a list of entries: stale
//! widgets are removed, then each entry's widget is found and updated, or
//! made and added at the end.
use vstd::prelude::*;

verus! {

/// The widget name of the placeholder label shown in place of an empty list.
pub open spec fn placeholder_name() -> Seq<char> {
    "placeholder"@
}

/// The string views of a list of names.
pub open spec fn names_view(names: Seq<String>) -> Seq<Seq<char>> {
    names.map_values(|s: String| s@)
}

/// The widgets that are not stale, in their order.
pub open spec fn kept_names(children: Seq<Seq<char>>, stale: spec_fn(Seq<char>) -> bool) -> Seq<
    Seq<char>,
>
    decreases children.len(),
{
    if children.len() == 0 {
        Seq::empty()
    } else if stale(children.last()) {
        kept_names(children.drop_last(), stale)
    } else {
        kept_names(children.drop_last(), stale).push(children.last())
    }
}

/// `remove` lists, in increasing order, exactly the positions of the stale
/// widgets among `children`.
pub open spec fn removes_stale(
    remove: Seq<usize>,
    children: Seq<Seq<char>>,
    stale: spec_fn(Seq<char>) -> bool,
) -> bool {
    &&& forall|k: int| 0 <= k < remove.len() ==> #[trigger] remove[k] < children.len()
    &&& forall|k: int, l: int| 0 <= k < l < remove.len() ==> remove[k] < remove[l]
    &&& forall|p: int|
        0 <= p < children.len() ==> (stale(#[trigger] children[p]) <==> remove.contains(
            p as usize,
        ))
}

/// The position of the first widget named `x`.
pub open spec fn first_position(ws: Seq<Seq<char>>, x: Seq<char>) -> Option<int> {
    if exists|p: int| 0 <= p < ws.len() && ws[p] == x {
        Some(
            choose|p: int| 0 <= p < ws.len() && ws[p] == x && forall|q: int| 0 <= q < p ==> ws[q] != x,
        )
    } else {
        None
    }
}

/// The widgets once the entries `entries` have been visited in order: an
/// entry's widget already there stays, a missing one is added at the end.
pub open spec fn after_entries(ws: Seq<Seq<char>>, entries: Seq<Seq<char>>) -> Seq<Seq<char>>
    decreases entries.len(),
{
    if entries.len() == 0 {
        ws
    } else {
        let before = after_entries(ws, entries.drop_last());
        if before.contains(entries.last()) {
            before
        } else {
            before.push(entries.last())
        }
    }
}

/// What to do for one entry's widget.
pub enum EntryStep {
    /// The widget is the one at this position: update it.
    Update(usize),
    /// There is no widget yet: make one with this name, at the end.
    Create(String),
}

/// `step` is what the entry named `name` needs when the widgets are `ws`.
pub open spec fn step_fits(step: EntryStep, ws: Seq<Seq<char>>, name: Seq<char>) -> bool {
    match step {
        EntryStep::Update(p) => first_position(ws, name) == Some(p as int),
        EntryStep::Create(n) => first_position(ws, name) is None && n@ == name,
    }
}

/// `steps` are the steps that the entries need, one per entry in order, when
/// the widgets start as `ws`.
pub open spec fn steps_fit(steps: Seq<EntryStep>, ws: Seq<Seq<char>>, entries: Seq<Seq<char>>) -> bool {
    &&& steps.len() == entries.len()
    &&& forall|j: int|
        0 <= j < entries.len() ==> step_fits(
            #[trigger] steps[j],
            after_entries(ws, entries.take(j)),
            entries[j],
        )
}

/// The first position holds the name, and comes before any other that does.
pub proof fn lemma_first_position_found(ws: Seq<Seq<char>>, x: Seq<char>)
    ensures
        first_position(ws, x) matches Some(p) ==> 0 <= p < ws.len() && ws[p] == x && forall|q: int|
            0 <= q < p ==> ws[q] != x,
        ws.contains(x) <==> first_position(ws, x) is Some,
{
    if exists|p: int| 0 <= p < ws.len() && ws[p] == x {
        lemma_first_position_from(ws, x, 0);
    }
}

proof fn lemma_first_position_from(ws: Seq<Seq<char>>, x: Seq<char>, k: int)
    requires
        0 <= k <= ws.len(),
        forall|q: int| 0 <= q < k ==> ws[q] != x,
        exists|p: int| k <= p < ws.len() && ws[p] == x,
    ensures
        exists|p: int| 0 <= p < ws.len() && ws[p] == x && forall|q: int| 0 <= q < p ==> ws[q] != x,
    decreases ws.len() - k,
{
    if ws[k] == x {
        assert(0 <= k < ws.len() && ws[k] == x && forall|q: int| 0 <= q < k ==> ws[q] != x);
    } else {
        lemma_first_position_from(ws, x, k + 1);
    }
}

proof fn lemma_first_position(ws: Seq<Seq<char>>, x: Seq<char>, p: int)
    requires
        0 <= p <= ws.len(),
        forall|q: int| 0 <= q < p ==> ws[q] != x,
    ensures
        p < ws.len() && ws[p] == x ==> first_position(ws, x) == Some(p),
        p == ws.len() ==> first_position(ws, x) is None && !ws.contains(x),
{
    if p < ws.len() && ws[p] == x {
        let c = choose|c: int|
            0 <= c < ws.len() && ws[c] == x && forall|q: int| 0 <= q < c ==> ws[q] != x;
        assert(0 <= c < ws.len() && ws[c] == x && forall|q: int| 0 <= q < c ==> ws[q] != x);
        if c > p {
            assert(ws[p] != x);
        }
    }
}

/// The position of the first name in `ws` equal to `x`.
pub fn position_of(ws: &Vec<String>, x: &String) -> (r: Option<usize>)
    ensures
        first_position(names_view(ws@), x@) == (match r {
            Some(p) => Some(p as int),
            None => None::<int>,
        }),
        r is None ==> !names_view(ws@).contains(x@),
        r matches Some(p) ==> p < ws@.len() && names_view(ws@)[p as int] == x@,
{
    let ghost v = names_view(ws@);
    let mut p: usize = 0;
    while p < ws.len()
        invariant
            p <= ws@.len(),
            v == names_view(ws@),
            forall|q: int| 0 <= q < p ==> v[q] != x@,
        decreases ws@.len() - p,
    {
        if ws[p] == *x {
            proof {
                lemma_first_position(v, x@, p as int);
            }
            return Some(p);
        }
        p = p + 1;
    }
    proof {
        lemma_first_position(v, x@, p as int);
    }
    None
}

/// Splits `children` into the positions of the stale ones, `flags` telling
/// which are stale, and the names of the others.
pub fn split_stale(children: &Vec<String>, flags: &Vec<bool>, Ghost(stale): Ghost<
    spec_fn(Seq<char>) -> bool,
>) -> (r: (Vec<usize>, Vec<String>))
    requires
        flags@.len() == children@.len(),
        forall|p: int| 0 <= p < children@.len() ==> flags@[p] == stale(#[trigger] children@[p]@),
    ensures
        removes_stale(r.0@, names_view(children@), stale),
        names_view(r.1@) == kept_names(names_view(children@), stale),
{
    let ghost cv = names_view(children@);
    let mut remove: Vec<usize> = Vec::new();
    let mut kept: Vec<String> = Vec::new();
    let mut p: usize = 0;
    while p < children.len()
        invariant
            p <= children@.len(),
            flags@.len() == children@.len(),
            forall|q: int| 0 <= q < children@.len() ==> flags@[q] == stale(#[trigger] children@[q]@),
            cv == names_view(children@),
            names_view(kept@) == kept_names(cv.take(p as int), stale),
            forall|k: int| 0 <= k < remove@.len() ==> #[trigger] remove@[k] < p,
            forall|k: int, l: int| 0 <= k < l < remove@.len() ==> remove@[k] < remove@[l],
            forall|q: int|
                0 <= q < p ==> (stale(#[trigger] cv[q]) <==> remove@.contains(q as usize)),
        decreases children@.len() - p,
    {
        let ghost before = remove@;
        assert(cv.take(p + 1).drop_last() =~= cv.take(p as int));
        assert(cv[p as int] == children@[p as int]@);
        if flags[p] {
            remove.push(p);
            proof {
                assert forall|q: int| 0 <= q < p + 1 implies (stale(#[trigger] cv[q])
                    <==> remove@.contains(q as usize)) by {
                    if q < p {
                        if remove@.contains(q as usize) {
                            let k = choose|k: int|
                                0 <= k < remove@.len() && remove@[k] == q as usize;
                            if k == before.len() {
                                assert(remove@[k] == p);
                            } else {
                                assert(before[k] == q as usize);
                            }
                        }
                        if before.contains(q as usize) {
                            let k = choose|k: int|
                                0 <= k < before.len() && before[k] == q as usize;
                            assert(remove@[k] == q as usize);
                        }
                    } else {
                        assert(remove@[before.len() as int] == p);
                    }
                }
            }
        } else {
            kept.push(children[p].clone());
            proof {
                assert(names_view(kept@) =~= kept_names(cv.take(p as int), stale).push(cv[p as int]));
                assert forall|q: int| 0 <= q < p + 1 implies (stale(#[trigger] cv[q])
                    <==> remove@.contains(q as usize)) by {
                    if q == p && remove@.contains(q as usize) {
                        let k = choose|k: int| 0 <= k < remove@.len() && remove@[k] == q as usize;
                    }
                }
            }
        }
        p = p + 1;
    }
    assert(cv.take(p as int) =~= cv);
    (remove, kept)
}

/// The steps that the entries `entries` need, one per entry in order, when
/// the widgets start as `ws`.
pub fn plan_entries(ws: Vec<String>, entries: &Vec<String>) -> (steps: Vec<EntryStep>)
    ensures
        steps_fit(steps@, names_view(ws@), names_view(entries@)),
{
    let ghost start = names_view(ws@);
    let ghost ev = names_view(entries@);
    let mut ws = ws;
    let mut steps: Vec<EntryStep> = Vec::new();
    let mut j: usize = 0;
    while j < entries.len()
        invariant
            j <= entries@.len(),
            ev == names_view(entries@),
            names_view(ws@) == after_entries(start, ev.take(j as int)),
            steps@.len() == j,
            forall|i: int|
                0 <= i < j ==> step_fits(
                    #[trigger] steps@[i],
                    after_entries(start, ev.take(i)),
                    ev[i],
                ),
        decreases entries@.len() - j,
    {
        let name = entries[j].clone();
        let ghost before = names_view(ws@);
        let ghost old_steps = steps@;
        proof {
            let t = ev.take(j + 1);
            assert(t.drop_last() =~= ev.take(j as int));
            assert(t.last() == ev[j as int]);
            assert(ev[j as int] == name@);
        }
        match position_of(&ws, &name) {
            Some(pos) => {
                steps.push(EntryStep::Update(pos));
                assert(before.contains(name@)) by {
                    assert(before[pos as int] == name@);
                }
            },
            None => {
                steps.push(EntryStep::Create(name.clone()));
                ws.push(name);
                assert(names_view(ws@) =~= before.push(name@));
            },
        }
        assert forall|i: int| 0 <= i < j + 1 implies step_fits(
            #[trigger] steps@[i],
            after_entries(start, ev.take(i)),
            ev[i],
        ) by {
            if i < j {
                assert(steps@[i] == old_steps[i]);
            }
        }
        j = j + 1;
    }
    assert(ev.take(j as int) =~= ev);
    steps
}

/// The kept widgets are the widgets that are not stale.
pub proof fn lemma_kept_names(children: Seq<Seq<char>>, stale: spec_fn(Seq<char>) -> bool)
    ensures
        forall|k: int|
            0 <= k < kept_names(children, stale).len() ==> !stale(
                #[trigger] kept_names(children, stale)[k],
            ) && children.contains(kept_names(children, stale)[k]),
    decreases children.len(),
{
    if children.len() > 0 {
        let init = children.drop_last();
        lemma_kept_names(init, stale);
        let before = kept_names(init, stale);
        let kept = kept_names(children, stale);
        assert forall|k: int| 0 <= k < kept.len() implies !stale(#[trigger] kept[k])
            && children.contains(kept[k]) by {
            if k < before.len() {
                assert(kept[k] == before[k]);
                let q = choose|q: int| 0 <= q < init.len() && init[q] == before[k];
                assert(children[q] == init[q]);
            } else {
                assert(children[children.len() - 1] == kept[k]);
            }
        }
    }
}

/// After the entries are visited, each has its widget, and every widget
/// was there before or is an entry's.
pub proof fn lemma_after_entries(ws: Seq<Seq<char>>, entries: Seq<Seq<char>>)
    ensures
        forall|j: int| 0 <= j < entries.len() ==> after_entries(ws, entries).contains(#[trigger] entries[j]),
        forall|k: int|
            0 <= k < after_entries(ws, entries).len() ==> ws.contains(
                #[trigger] after_entries(ws, entries)[k],
            ) || entries.contains(after_entries(ws, entries)[k]),
    decreases entries.len(),
{
    if entries.len() > 0 {
        let init = entries.drop_last();
        lemma_after_entries(ws, init);
        let before = after_entries(ws, init);
        let after = after_entries(ws, entries);
        let name = entries.last();
        assert(after.contains(name)) by {
            if !before.contains(name) {
                assert(after[after.len() - 1] == name);
            }
        }
        assert forall|j: int| 0 <= j < entries.len() implies after.contains(#[trigger] entries[j]) by {
            if j < entries.len() - 1 {
                assert(init[j] == entries[j]);
                let k = choose|k: int| 0 <= k < before.len() && before[k] == init[j];
                assert(after[k] == before[k]);
            }
        }
        assert forall|k: int| 0 <= k < after.len() implies ws.contains(#[trigger] after[k])
            || entries.contains(after[k]) by {
            if k < before.len() {
                assert(after[k] == before[k]);
                if !ws.contains(before[k]) {
                    let j = choose|j: int| 0 <= j < init.len() && init[j] == before[k];
                    assert(entries[j] == init[j]);
                }
            } else {
                assert(after[k] == entries[entries.len() - 1]);
            }
        }
    }
}

} // verus!

verus! {

/// A widget that is not stale stays among the kept widgets.
pub proof fn lemma_kept_names_keeps(children: Seq<Seq<char>>, stale: spec_fn(Seq<char>) -> bool, q: int)
    requires
        0 <= q < children.len(),
        !stale(children[q]),
    ensures
        kept_names(children, stale).contains(children[q]),
    decreases children.len(),
{
    let init = children.drop_last();
    let kept = kept_names(children, stale);
    if q == children.len() - 1 {
        assert(kept[kept.len() - 1] == children[q]);
    } else {
        assert(init[q] == children[q]);
        lemma_kept_names_keeps(init, stale, q);
        let k = choose|k: int| 0 <= k < kept_names(init, stale).len() && kept_names(init, stale)[k]
            == children[q];
        assert(kept[k] == kept_names(init, stale)[k]);
    }
}

/// Visiting entries only adds widgets at the end: those there before keep
/// their positions.
pub proof fn lemma_after_entries_keeps(ws: Seq<Seq<char>>, entries: Seq<Seq<char>>)
    ensures
        after_entries(ws, entries).len() >= ws.len(),
        forall|k: int| 0 <= k < ws.len() ==> #[trigger] after_entries(ws, entries)[k] == ws[k],
    decreases entries.len(),
{
    if entries.len() > 0 {
        lemma_after_entries_keeps(ws, entries.drop_last());
    }
}

/// A widget already there when an entry with its name is visited is
/// updated, never made again.
pub proof fn lemma_present_widget_is_updated(ws: Seq<Seq<char>>, entries: Seq<Seq<char>>, j: int, step: EntryStep)
    requires
        0 <= j < entries.len(),
        ws.contains(entries[j]),
        step_fits(step, after_entries(ws, entries.take(j)), entries[j]),
    ensures
        step is Update,
{
    lemma_after_entries_keeps(ws, entries.take(j));
    let k = choose|k: int| 0 <= k < ws.len() && ws[k] == entries[j];
    assert(after_entries(ws, entries.take(j))[k] == entries[j]);
    lemma_first_position_found(after_entries(ws, entries.take(j)), entries[j]);
}

} // verus!

verus! {

/// No name occurs twice in `ws`.
pub open spec fn no_duplicates(ws: Seq<Seq<char>>) -> bool {
    forall|i: int, j: int| 0 <= i < j < ws.len() ==> ws[i] != ws[j]
}

/// Leaving out stale widgets makes no name occur twice.
pub proof fn lemma_kept_names_no_duplicates(children: Seq<Seq<char>>, stale: spec_fn(Seq<char>) -> bool)
    requires
        no_duplicates(children),
    ensures
        no_duplicates(kept_names(children, stale)),
    decreases children.len(),
{
    if children.len() > 0 {
        let init = children.drop_last();
        assert(no_duplicates(init)) by {
            assert forall|i: int, j: int| 0 <= i < j < init.len() implies init[i] != init[j] by {
                assert(init[i] == children[i] && init[j] == children[j]);
            }
        }
        lemma_kept_names_no_duplicates(init, stale);
        lemma_kept_names(init, stale);
        let before = kept_names(init, stale);
        let kept = kept_names(children, stale);
        if !stale(children.last()) {
            assert(!before.contains(children.last())) by {
                if before.contains(children.last()) {
                    let k = choose|k: int| 0 <= k < before.len() && before[k] == children.last();
                    assert(init.contains(before[k]));
                    let q = choose|q: int| 0 <= q < init.len() && init[q] == before[k];
                    assert(children[q] == children[children.len() - 1]);
                }
            }
            assert forall|i: int, j: int| 0 <= i < j < kept.len() implies kept[i] != kept[j] by {
                if j == kept.len() - 1 {
                    assert(kept[i] == before[i]);
                } else {
                    assert(kept[i] == before[i] && kept[j] == before[j]);
                }
            }
        }
    }
}

/// A first widget that is not stale stays first.
pub proof fn lemma_kept_names_head(children: Seq<Seq<char>>, stale: spec_fn(Seq<char>) -> bool)
    requires
        children.len() > 0,
        !stale(children[0]),
    ensures
        kept_names(children, stale).len() > 0,
        kept_names(children, stale)[0] == children[0],
    decreases children.len(),
{
    let init = children.drop_last();
    let kept = kept_names(children, stale);
    if children.len() == 1 {
        assert(kept_names(init, stale) == Seq::<Seq<char>>::empty());
        assert(children.last() == children[0]);
        assert(kept =~= seq![children[0]]);
    } else {
        assert(init[0] == children[0]);
        lemma_kept_names_head(init, stale);
        let before = kept_names(init, stale);
        if stale(children.last()) {
        } else {
            assert(kept[0] == before[0]);
        }
    }
}

/// Visiting entries adds only names not yet there.
pub proof fn lemma_after_entries_no_duplicates(ws: Seq<Seq<char>>, entries: Seq<Seq<char>>)
    requires
        no_duplicates(ws),
    ensures
        no_duplicates(after_entries(ws, entries)),
    decreases entries.len(),
{
    if entries.len() > 0 {
        lemma_after_entries_no_duplicates(ws, entries.drop_last());
        let before = after_entries(ws, entries.drop_last());
        let after = after_entries(ws, entries);
        if !before.contains(entries.last()) {
            assert forall|i: int, j: int| 0 <= i < j < after.len() implies after[i] != after[j] by {
                assert(after[i] == before[i]);
                if j < before.len() {
                    assert(after[j] == before[j]);
                }
            }
        }
    }
}

} // verus!
