//! Per-application volume control: the playback streams of one application
//! are collapsed into one group, shown as one slider whose value is their
//! average volume and which moves all of them at once.
use vstd::prelude::*;
use crate::audio::AudioStream;
use crate::decimal::{decimal, decimal_text};
use crate::text::{
    chars_less, chars_of, has_prefix, lemma_seq_less_irreflexive, lemma_seq_less_total,
    lemma_seq_less_transitive, range_equals, range_has_prefix, seq_less,
};
use crate::widgets::{
    after_entries, kept_names, lemma_after_entries, lemma_kept_names, names_view, placeholder_name,
    plan_entries, removes_stale, lemma_after_entries_keeps, lemma_kept_names_keeps,
    lemma_present_widget_is_updated, step_fits, lemma_kept_names_no_duplicates, lemma_after_entries_no_duplicates, no_duplicates,
    split_stale, steps_fit, EntryStep,
};

verus! {

/// The stream indices of the streams of application `app`, in stream order.
pub open spec fn app_indices(ss: Seq<AudioStream>, app: Seq<char>) -> Seq<u32>
    decreases ss.len(),
{
    if ss.len() == 0 {
        Seq::empty()
    } else if ss.last().app_name@ == app {
        app_indices(ss.drop_last(), app).push(ss.last().index)
    } else {
        app_indices(ss.drop_last(), app)
    }
}

/// The sum of the volumes of the streams of application `app`.
pub open spec fn app_volume_total(ss: Seq<AudioStream>, app: Seq<char>) -> int
    decreases ss.len(),
{
    if ss.len() == 0 {
        0
    } else if ss.last().app_name@ == app {
        app_volume_total(ss.drop_last(), app) + ss.last().volume
    } else {
        app_volume_total(ss.drop_last(), app)
    }
}

/// The average volume of the streams of application `app`, rounded down.
pub open spec fn app_average_volume(ss: Seq<AudioStream>, app: Seq<char>) -> int {
    app_volume_total(ss, app) / (app_indices(ss, app).len() as int)
}

/// Whether some stream belongs to application `app`.
pub open spec fn mentions_app(ss: Seq<AudioStream>, app: Seq<char>) -> bool {
    exists|m: int| 0 <= m < ss.len() && #[trigger] ss[m].app_name@ == app
}

/// The streams of one application, shown as one slider.
pub struct StreamGroup {
    pub app_name: String,
    /// The indices of the application's streams, which the slider moves.
    pub indices: Vec<u32>,
    /// The slider's value: the average volume of the streams, in percent.
    pub volume: u32,
}

/// Whether some group is that of application `app`.
pub open spec fn has_group(gs: Seq<StreamGroup>, app: Seq<char>) -> bool {
    exists|i: int| 0 <= i < gs.len() && #[trigger] gs[i].app_name@ == app
}

/// `gs` is the grouping of `ss` by application: one group per application
/// name that occurs, in the order of the names, each holding exactly the
/// indices of that application's streams and their average volume.
pub open spec fn is_grouping(ss: Seq<AudioStream>, gs: Seq<StreamGroup>) -> bool {
    &&& forall|i: int, j: int|
        0 <= i < j < gs.len() ==> seq_less(#[trigger] gs[i].app_name@, #[trigger] gs[j].app_name@)
    &&& forall|i: int| 0 <= i < gs.len() ==> mentions_app(ss, #[trigger] gs[i].app_name@)
    &&& forall|m: int| 0 <= m < ss.len() ==> has_group(gs, #[trigger] ss[m].app_name@)
    &&& forall|i: int|
        0 <= i < gs.len() ==> {
            &&& (#[trigger] gs[i]).indices@ == app_indices(ss, gs[i].app_name@)
            &&& gs[i].volume == app_average_volume(ss, gs[i].app_name@)
        }
}

pub proof fn lemma_app_push(ss: Seq<AudioStream>, s: AudioStream, app: Seq<char>)
    ensures
        app_indices(ss.push(s), app) == (if s.app_name@ == app {
            app_indices(ss, app).push(s.index)
        } else {
            app_indices(ss, app)
        }),
        app_volume_total(ss.push(s), app) == (if s.app_name@ == app {
            app_volume_total(ss, app) + s.volume
        } else {
            app_volume_total(ss, app)
        }),
{
    assert(ss.push(s).drop_last() =~= ss);
}

pub proof fn lemma_app_absent(ss: Seq<AudioStream>, app: Seq<char>)
    requires
        !mentions_app(ss, app),
    ensures
        app_indices(ss, app) == Seq::<u32>::empty(),
        app_volume_total(ss, app) == 0,
    decreases ss.len(),
{
    if ss.len() > 0 {
        assert(ss.last() == ss[ss.len() - 1]);
        assert(!mentions_app(ss.drop_last(), app)) by {
            if mentions_app(ss.drop_last(), app) {
                let m = choose|m: int|
                    0 <= m < ss.drop_last().len() && #[trigger] ss.drop_last()[m].app_name@ == app;
                assert(ss[m].app_name@ == app);
            }
        }
        lemma_app_absent(ss.drop_last(), app);
    }
}

pub proof fn lemma_app_bounds(ss: Seq<AudioStream>, app: Seq<char>)
    ensures
        app_indices(ss, app).len() <= ss.len(),
        0 <= app_volume_total(ss, app) <= app_indices(ss, app).len() * 0xffff_ffff,
        mentions_app(ss, app) ==> app_indices(ss, app).len() > 0,
    decreases ss.len(),
{
    if ss.len() > 0 {
        lemma_app_bounds(ss.drop_last(), app);
        if mentions_app(ss, app) && ss.last().app_name@ != app {
            let m = choose|m: int| 0 <= m < ss.len() && #[trigger] ss[m].app_name@ == app;
            assert(m != ss.len() - 1);
            assert(ss.drop_last()[m].app_name@ == app);
        }
    }
}

/// A group while the streams are being read.
struct GroupAcc {
    chars: Vec<char>,
    name: String,
    indices: Vec<u32>,
    total: u128,
}

spec fn acc_valid(acc: Seq<GroupAcc>, ss: Seq<AudioStream>) -> bool {
    &&& forall|i: int, j: int|
        0 <= i < j < acc.len() ==> seq_less(#[trigger] acc[i].chars@, #[trigger] acc[j].chars@)
    &&& forall|i: int|
        0 <= i < acc.len() ==> {
            &&& (#[trigger] acc[i]).chars@ == acc[i].name@
            &&& acc[i].indices@ == app_indices(ss, acc[i].chars@)
            &&& acc[i].total == app_volume_total(ss, acc[i].chars@)
            &&& mentions_app(ss, acc[i].chars@)
        }
    &&& forall|m: int|
        0 <= m < ss.len() ==> exists|i: int|
            0 <= i < acc.len() && #[trigger] acc[i].chars@ == #[trigger] ss[m].app_name@
}

/// Groups the streams by application name, as the mixer shows them: one
/// group per application, ordered by name, holding the indices of the
/// application's streams in stream order and their average volume
/// (rounded down).
pub fn group_streams(streams: &Vec<AudioStream>) -> (groups: Vec<StreamGroup>)
    ensures
        is_grouping(streams@, groups@),
{
    let n = streams.len();
    let mut acc: Vec<GroupAcc> = Vec::new();
    let mut k: usize = 0;
    while k < n
        invariant
            n == streams@.len(),
            k <= n,
            acc_valid(acc@, streams@.subrange(0, k as int)),
        decreases n - k,
    {
        let ghost prev = streams@.subrange(0, k as int);
        let ghost next = streams@.subrange(0, k + 1);
        let s = &streams[k];
        assert(next =~= prev.push(*s));
        let name = chars_of(s.app_name.as_str());
        let mut pos: usize = 0;
        while pos < acc.len() && chars_less(&acc[pos].chars, &name)
            invariant
                pos <= acc@.len(),
                forall|i: int| 0 <= i < pos ==> seq_less(#[trigger] acc@[i].chars@, name@),
            decreases acc@.len() - pos,
        {
            pos = pos + 1;
        }
        let found = pos < acc.len() && range_equals(&acc[pos].chars, 0, acc[pos].chars.len(), &name);
        if pos < acc.len() {
            assert(acc@[pos as int].chars@.subrange(0, acc@[pos as int].chars@.len() as int)
                =~= acc@[pos as int].chars@);
        }
        proof {
            lemma_app_bounds(prev, name@);
            lemma_app_bounds(next, name@);
            lemma_seq_less_irreflexive(name@);
            assert forall|i: int| 0 <= i < acc@.len() && (i != pos || !found) implies #[trigger] acc@[i].chars@
                != name@ by {
                if i > pos && acc@[i].chars@ == name@ {
                    assert(seq_less(acc@[pos as int].chars@, acc@[i].chars@));
                    if !found {
                        lemma_seq_less_total(acc@[pos as int].chars@, name@);
                        lemma_seq_less_transitive(name@, acc@[pos as int].chars@, acc@[i].chars@);
                    }
                }
            }
            assert forall|i: int| 0 <= i < acc@.len() && acc@[i].chars@ != name@ implies
                app_indices(next, #[trigger] acc@[i].chars@) == app_indices(prev, acc@[i].chars@)
                && app_volume_total(next, acc@[i].chars@) == app_volume_total(
                prev,
                acc@[i].chars@,
            ) by {
                lemma_app_push(prev, *s, acc@[i].chars@);
            }
            lemma_app_push(prev, *s, name@);
        }
        let ghost old_acc = acc@;
        if found {
            let mut g = acc.remove(pos);
            g.indices.push(s.index);
            g.total = g.total + s.volume as u128;
            acc.insert(pos, g);
            proof {
                assert(acc@ =~= old_acc.update(pos as int, g));
                assert forall|i: int, j: int| 0 <= i < j < acc@.len() implies seq_less(
                    #[trigger] acc@[i].chars@,
                    #[trigger] acc@[j].chars@,
                ) by {
                    assert(acc@[i].chars@ == old_acc[i].chars@);
                    assert(acc@[j].chars@ == old_acc[j].chars@);
                }
                assert forall|m: int| 0 <= m < next.len() implies exists|i: int|
                    0 <= i < acc@.len() && #[trigger] acc@[i].chars@
                        == #[trigger] next[m].app_name@ by {
                    if m < k {
                        assert(next[m] == prev[m]);
                        let i = choose|i: int|
                            0 <= i < old_acc.len() && #[trigger] old_acc[i].chars@
                                == #[trigger] prev[m].app_name@;
                        assert(acc@[i].chars@ == old_acc[i].chars@);
                    } else {
                        assert(next[m] == *s);
                        assert(acc@[pos as int].chars@ == next[m].app_name@);
                    }
                }
                assert forall|i: int| 0 <= i < acc@.len() implies mentions_app(
                    next,
                    #[trigger] acc@[i].chars@,
                ) by {
                    if i == pos {
                        assert(next[k as int].app_name@ == acc@[i].chars@);
                    } else {
                        let m = choose|m: int|
                            0 <= m < prev.len() && #[trigger] prev[m].app_name@
                                == old_acc[i].chars@;
                        assert(next[m] == prev[m]);
                    }
                }
            }
        } else {
            proof {
                assert(!mentions_app(prev, name@)) by {
                    if mentions_app(prev, name@) {
                        let m = choose|m: int|
                            0 <= m < prev.len() && #[trigger] prev[m].app_name@ == name@;
                        let i = choose|i: int|
                            0 <= i < old_acc.len() && #[trigger] old_acc[i].chars@
                                == #[trigger] prev[m].app_name@;
                        assert(old_acc[i].chars@ == name@);
                    }
                }
                lemma_app_absent(prev, name@);
            }
            let mut indices: Vec<u32> = Vec::new();
            indices.push(s.index);
            let g = GroupAcc {
                chars: name,
                name: s.app_name.clone(),
                indices,
                total: s.volume as u128,
            };
            acc.insert(pos, g);
            proof {
                assert(acc@ =~= old_acc.insert(pos as int, g));
                assert(g.indices@ =~= Seq::<u32>::empty().push(s.index));
                if pos < old_acc.len() {
                    lemma_seq_less_total(old_acc[pos as int].chars@, g.chars@);
                }
                assert forall|i: int, j: int| 0 <= i < j < acc@.len() implies seq_less(
                    #[trigger] acc@[i].chars@,
                    #[trigger] acc@[j].chars@,
                ) by {
                    if j == pos {
                        assert(acc@[i] == old_acc[i]);
                    } else if i == pos {
                        assert(acc@[j] == old_acc[j - 1]);
                        if j - 1 > pos {
                            lemma_seq_less_transitive(
                                g.chars@,
                                old_acc[pos as int].chars@,
                                old_acc[j - 1].chars@,
                            );
                        }
                    } else {
                        let oi = if i < pos {
                            i
                        } else {
                            i - 1
                        };
                        let oj = if j < pos {
                            j
                        } else {
                            j - 1
                        };
                        assert(acc@[i] == old_acc[oi]);
                        assert(acc@[j] == old_acc[oj]);
                    }
                }
                assert forall|i: int| 0 <= i < acc@.len() implies {
                    &&& (#[trigger] acc@[i]).chars@ == acc@[i].name@
                    &&& acc@[i].indices@ == app_indices(next, acc@[i].chars@)
                    &&& acc@[i].total == app_volume_total(next, acc@[i].chars@)
                    &&& mentions_app(next, acc@[i].chars@)
                } by {
                    if i == pos {
                        assert(next[k as int].app_name@ == acc@[i].chars@);
                    } else {
                        let oi = if i < pos {
                            i
                        } else {
                            i - 1
                        };
                        assert(acc@[i] == old_acc[oi]);
                        let m = choose|m: int|
                            0 <= m < prev.len() && #[trigger] prev[m].app_name@
                                == old_acc[oi].chars@;
                        assert(next[m] == prev[m]);
                    }
                }
                assert forall|m: int| 0 <= m < next.len() implies exists|i: int|
                    0 <= i < acc@.len() && #[trigger] acc@[i].chars@
                        == #[trigger] next[m].app_name@ by {
                    if m < k {
                        assert(next[m] == prev[m]);
                        let oi = choose|i: int|
                            0 <= i < old_acc.len() && #[trigger] old_acc[i].chars@
                                == #[trigger] prev[m].app_name@;
                        let i = if oi < pos {
                            oi
                        } else {
                            oi + 1
                        };
                        assert(acc@[i] == old_acc[oi]);
                    } else {
                        assert(next[m] == *s);
                        assert(acc@[pos as int].chars@ == next[m].app_name@);
                    }
                }
            }
        }
        k = k + 1;
    }
    assert(streams@.subrange(0, n as int) =~= streams@);
    let ghost ss = streams@;
    let ghost all = acc@;
    let mut groups: Vec<StreamGroup> = Vec::new();
    while acc.len() > 0
        invariant
            acc_valid(all, ss),
            groups@.len() + acc@.len() == all.len(),
            acc@ =~= all.subrange(groups@.len() as int, all.len() as int),
            forall|i: int|
                0 <= i < groups@.len() ==> {
                    &&& (#[trigger] groups@[i]).app_name@ == all[i].chars@
                    &&& groups@[i].indices@ == app_indices(ss, all[i].chars@)
                    &&& groups@[i].volume == app_average_volume(ss, all[i].chars@)
                },
        decreases acc@.len(),
    {
        let ghost gi = groups@.len() as int;
        let g = acc.remove(0);
        assert(g == all[gi]);
        proof {
            lemma_app_bounds(ss, g.chars@);
        }
        let count = g.indices.len() as u128;
        let avg = g.total / count;
        assert(avg <= 0xffff_ffff) by (nonlinear_arith)
            requires
                avg == g.total / count,
                count > 0,
                g.total <= count * 0xffff_ffff,
        ;
        groups.push(StreamGroup { app_name: g.name, indices: g.indices, volume: avg as u32 });
    }
    proof {
        let gs = groups@;
        assert forall|i: int| 0 <= i < gs.len() implies {
            &&& (#[trigger] gs[i]).indices@ == app_indices(ss, gs[i].app_name@)
            &&& gs[i].volume == app_average_volume(ss, gs[i].app_name@)
        } by {
            assert(gs[i].app_name@ == all[i].chars@);
        }
        assert forall|i: int, j: int| 0 <= i < j < gs.len() implies seq_less(
            #[trigger] gs[i].app_name@,
            #[trigger] gs[j].app_name@,
        ) by {
            assert(gs[i].app_name@ == all[i].chars@);
            assert(gs[j].app_name@ == all[j].chars@);
        }
        assert forall|i: int| 0 <= i < gs.len() implies mentions_app(
            ss,
            #[trigger] gs[i].app_name@,
        ) by {
            assert(gs[i].app_name@ == all[i].chars@);
        }
        assert forall|m: int| 0 <= m < ss.len() implies has_group(gs, #[trigger] ss[m].app_name@) by {
            let i = choose|i: int|
                0 <= i < all.len() && #[trigger] all[i].chars@ == #[trigger] ss[m].app_name@;
            assert(gs[i].app_name@ == all[i].chars@);
        }
        assert(gs.len() == all.len());
        assert(is_grouping(ss, gs));
    }
    groups
}

} // verus!

verus! {

/// How many of `names` are `x`.
pub open spec fn occurrences(names: Seq<Seq<char>>, x: Seq<char>) -> int
    decreases names.len(),
{
    if names.len() == 0 {
        0
    } else {
        occurrences(names.drop_last(), x) + if names.last() == x {
            1int
        } else {
            0int
        }
    }
}

/// How many streams belong to the applications `names`, counted once per name.
pub open spec fn streams_of_names(ss: Seq<AudioStream>, names: Seq<Seq<char>>) -> int
    decreases names.len(),
{
    if names.len() == 0 {
        0
    } else {
        streams_of_names(ss, names.drop_last()) + app_indices(ss, names.last()).len()
    }
}

/// How many stream indices the groups hold together.
pub open spec fn group_sizes(gs: Seq<StreamGroup>) -> int
    decreases gs.len(),
{
    if gs.len() == 0 {
        0
    } else {
        group_sizes(gs.drop_last()) + gs.last().indices@.len()
    }
}

/// The application names of the groups.
pub open spec fn group_names(gs: Seq<StreamGroup>) -> Seq<Seq<char>> {
    gs.map_values(|g: StreamGroup| g.app_name@)
}

proof fn lemma_streams_of_names_step(ss: Seq<AudioStream>, names: Seq<Seq<char>>)
    requires
        ss.len() > 0,
    ensures
        streams_of_names(ss, names) == streams_of_names(ss.drop_last(), names) + occurrences(
            names,
            ss.last().app_name@,
        ),
    decreases names.len(),
{
    if names.len() > 0 {
        lemma_streams_of_names_step(ss, names.drop_last());
    }
}

proof fn lemma_occurrences_distinct(names: Seq<Seq<char>>, x: Seq<char>)
    requires
        forall|i: int, j: int| 0 <= i < j < names.len() ==> names[i] != names[j],
    ensures
        occurrences(names, x) == if names.contains(x) {
            1int
        } else {
            0int
        },
    decreases names.len(),
{
    if names.len() > 0 {
        let init = names.drop_last();
        lemma_occurrences_distinct(init, x);
        if names.last() == x {
            assert(!init.contains(x)) by {
                if init.contains(x) {
                    let i = choose|i: int| 0 <= i < init.len() && init[i] == x;
                    assert(names[i] == names[names.len() - 1]);
                }
            }
            assert(names.contains(x)) by {
                assert(names[names.len() - 1] == x);
            }
        } else {
            if names.contains(x) {
                let i = choose|i: int| 0 <= i < names.len() && names[i] == x;
                assert(init[i] == x);
            }
            if init.contains(x) {
                let i = choose|i: int| 0 <= i < init.len() && init[i] == x;
                assert(names[i] == x);
            }
        }
    }
}

proof fn lemma_streams_of_names_cover(ss: Seq<AudioStream>, names: Seq<Seq<char>>)
    requires
        forall|i: int, j: int| 0 <= i < j < names.len() ==> names[i] != names[j],
        forall|m: int| 0 <= m < ss.len() ==> names.contains(#[trigger] ss[m].app_name@),
    ensures
        streams_of_names(ss, names) == ss.len(),
    decreases ss.len(),
{
    if ss.len() == 0 {
        lemma_streams_of_names_empty(ss, names);
    } else {
        let init = ss.drop_last();
        assert forall|m: int| 0 <= m < init.len() implies names.contains(
            #[trigger] init[m].app_name@,
        ) by {
            assert(init[m] == ss[m]);
        }
        lemma_streams_of_names_cover(init, names);
        lemma_streams_of_names_step(ss, names);
        assert(names.contains(ss[ss.len() - 1].app_name@));
        lemma_occurrences_distinct(names, ss.last().app_name@);
    }
}

proof fn lemma_streams_of_names_empty(ss: Seq<AudioStream>, names: Seq<Seq<char>>)
    requires
        ss.len() == 0,
    ensures
        streams_of_names(ss, names) == 0,
    decreases names.len(),
{
    if names.len() > 0 {
        lemma_streams_of_names_empty(ss, names.drop_last());
    }
}

proof fn lemma_group_sizes_names(ss: Seq<AudioStream>, gs: Seq<StreamGroup>)
    requires
        forall|i: int| 0 <= i < gs.len() ==> (#[trigger] gs[i]).indices@ == app_indices(ss, gs[i].app_name@),
    ensures
        group_sizes(gs) == streams_of_names(ss, group_names(gs)),
    decreases gs.len(),
{
    if gs.len() > 0 {
        let init = gs.drop_last();
        assert forall|i: int| 0 <= i < init.len() implies (#[trigger] init[i]).indices@
            == app_indices(ss, init[i].app_name@) by {
            assert(init[i] == gs[i]);
        }
        lemma_group_sizes_names(ss, init);
        assert(group_names(gs).drop_last() =~= group_names(init));
        assert(gs.last() == gs[gs.len() - 1]);
    }
}

/// Every stream is in exactly one group: the groups hold as many stream
/// indices together as there are streams.
pub proof fn law_groups_partition_streams(ss: Seq<AudioStream>, gs: Seq<StreamGroup>)
    requires
        is_grouping(ss, gs),
    ensures
        group_sizes(gs) == ss.len(),
{
    let names = group_names(gs);
    assert forall|i: int, j: int| 0 <= i < j < names.len() implies names[i] != names[j] by {
        assert(seq_less(gs[i].app_name@, gs[j].app_name@));
        lemma_seq_less_irreflexive(gs[i].app_name@);
    }
    assert forall|m: int| 0 <= m < ss.len() implies names.contains(#[trigger] ss[m].app_name@) by {
        assert(has_group(gs, ss[m].app_name@));
        let i = choose|i: int| 0 <= i < gs.len() && #[trigger] gs[i].app_name@ == ss[m].app_name@;
        assert(names[i] == ss[m].app_name@);
    }
    lemma_group_sizes_names(ss, gs);
    lemma_streams_of_names_cover(ss, names);
}

proof fn lemma_app_indices_contains(ss: Seq<AudioStream>, m: int)
    requires
        0 <= m < ss.len(),
    ensures
        app_indices(ss, ss[m].app_name@).contains(ss[m].index),
    decreases ss.len(),
{
    let app = ss[m].app_name@;
    if m == ss.len() - 1 {
        assert(app_indices(ss, app).last() == ss[m].index);
        assert(app_indices(ss, app)[app_indices(ss, app).len() - 1] == ss[m].index);
    } else {
        let init = ss.drop_last();
        assert(init[m] == ss[m]);
        lemma_app_indices_contains(init, m);
        let k = choose|k: int|
            0 <= k < app_indices(init, app).len() && app_indices(init, app)[k] == ss[m].index;
        assert(app_indices(ss, app)[k] == ss[m].index);
    }
}

/// Moving an application's slider reaches each of its streams: every
/// stream's index is among the indices of the group of its application.
pub proof fn law_slider_reaches_every_stream(ss: Seq<AudioStream>, gs: Seq<StreamGroup>, m: int)
    requires
        is_grouping(ss, gs),
        0 <= m < ss.len(),
    ensures
        exists|i: int|
            0 <= i < gs.len() && #[trigger] gs[i].app_name@ == ss[m].app_name@
                && gs[i].indices@.contains(ss[m].index),
{
    assert(has_group(gs, ss[m].app_name@));
    let i = choose|i: int| 0 <= i < gs.len() && #[trigger] gs[i].app_name@ == ss[m].app_name@;
    lemma_app_indices_contains(ss, m);
    assert(gs[i].indices@ == app_indices(ss, gs[i].app_name@));
}

proof fn lemma_total_bounds(ss: Seq<AudioStream>, app: Seq<char>, v: int)
    ensures
        (forall|m: int| 0 <= m < ss.len() && (#[trigger] ss[m]).app_name@ == app ==> ss[m].volume
            <= v) ==> app_volume_total(ss, app) <= app_indices(ss, app).len() * v,
        (forall|m: int| 0 <= m < ss.len() && (#[trigger] ss[m]).app_name@ == app ==> ss[m].volume
            >= v) ==> app_volume_total(ss, app) >= app_indices(ss, app).len() * v,
    decreases ss.len(),
{
    if ss.len() > 0 {
        let init = ss.drop_last();
        lemma_total_bounds(init, app, v);
        assert(forall|m: int| 0 <= m < init.len() ==> init[m] == ss[m]);
        assert(ss.last() == ss[ss.len() - 1]);
        let c = app_indices(init, app).len();
        assert((c + 1) * v == c * v + v) by (nonlinear_arith);
    }
}

/// A slider's value lies between the smallest and the largest volume of the
/// application's streams.
pub proof fn law_group_volume_within_stream_volumes(
    ss: Seq<AudioStream>,
    gs: Seq<StreamGroup>,
    i: int,
)
    requires
        is_grouping(ss, gs),
        0 <= i < gs.len(),
    ensures
        exists|m: int|
            0 <= m < ss.len() && (#[trigger] ss[m]).app_name@ == gs[i].app_name@ && ss[m].volume
                <= gs[i].volume,
        exists|m: int|
            0 <= m < ss.len() && (#[trigger] ss[m]).app_name@ == gs[i].app_name@ && ss[m].volume
                >= gs[i].volume,
{
    let app = gs[i].app_name@;
    let avg = gs[i].volume as int;
    lemma_app_bounds(ss, app);
    let c = app_indices(ss, app).len() as int;
    let t = app_volume_total(ss, app);
    assert(avg == t / c);
    if !(exists|m: int|
        0 <= m < ss.len() && (#[trigger] ss[m]).app_name@ == app && ss[m].volume <= avg) {
        lemma_total_bounds(ss, app, avg + 1);
        assert(t >= c * (avg + 1));
        assert(false) by (nonlinear_arith)
            requires
                c > 0,
                avg == t / c,
                t >= c * (avg + 1),
        ;
    }
    if !(exists|m: int|
        0 <= m < ss.len() && (#[trigger] ss[m]).app_name@ == app && ss[m].volume >= avg) {
        lemma_total_bounds(ss, app, avg - 1);
        assert(t <= c * (avg - 1));
        assert(false) by (nonlinear_arith)
            requires
                c > 0,
                avg == t / c,
                t <= c * (avg - 1),
        ;
    }
}

} // verus!

verus! {

/// The prefix of the widget name of an application's slider box.
pub open spec fn stream_prefix() -> Seq<char> {
    "stream-app-"@
}

/// The widget name of the slider box of application `app`.
pub open spec fn stream_widget_name(app: Seq<char>) -> Seq<char> {
    stream_prefix() + app
}

/// Whether the widget `name` is the slider box of an application that no
/// longer plays.
pub open spec fn stale_stream_widget(name: Seq<char>, gs: Seq<StreamGroup>) -> bool {
    has_prefix(name, stream_prefix()) && !has_group(gs, name.skip(stream_prefix().len() as int))
}

/// The staleness test of the application list, as a predicate on names.
pub open spec fn stream_staleness(gs: Seq<StreamGroup>) -> spec_fn(Seq<char>) -> bool {
    |name: Seq<char>| stale_stream_widget(name, gs)
}

/// The widget names of the groups' slider boxes, in group order.
pub open spec fn stream_entry_names(gs: Seq<StreamGroup>) -> Seq<Seq<char>> {
    gs.map_values(|g: StreamGroup| stream_widget_name(g.app_name@))
}

/// The kept widgets without a placeholder label at their head.
pub open spec fn without_leading_placeholder(ws: Seq<Seq<char>>) -> Seq<Seq<char>> {
    if ws.len() > 0 && ws[0] == placeholder_name() {
        ws.drop_first()
    } else {
        ws
    }
}

/// The widgets of the application list once it has been brought up to date
/// with the groups `gs`.
pub open spec fn streams_after_update(children: Seq<Seq<char>>, gs: Seq<StreamGroup>) -> Seq<
    Seq<char>,
> {
    let kept = kept_names(children, stream_staleness(gs));
    if gs.len() == 0 {
        if kept.contains(placeholder_name()) {
            kept
        } else {
            seq![placeholder_name()]
        }
    } else {
        after_entries(without_leading_placeholder(kept), stream_entry_names(gs))
    }
}

/// How to bring the application list up to date.
pub struct StreamListPlan {
    /// The streams grouped by application, one slider each.
    pub groups: Vec<StreamGroup>,
    /// The positions, among the current widgets, of those to remove, in
    /// increasing order.
    pub remove: Vec<usize>,
    /// Whether to clear the list and show only the placeholder label.
    pub show_placeholder_only: bool,
    /// Whether to remove the first remaining widget, a placeholder label.
    pub drop_leading_placeholder: bool,
    /// One step per group, in group order; positions count the remaining
    /// widgets and then those made by earlier steps.
    pub steps: Vec<EntryStep>,
}

/// The widget name of the slider box of application `app`.
pub fn stream_widget_name_of(app: &String) -> (r: String)
    ensures
        r@ == stream_widget_name(app@),
        r@ == "stream-app-"@ + app@,
{
    let mut s = "stream-app-".to_owned();
    s.append(app.as_str());
    s
}

/// Whether the widget named `name` is the slider box of an application
/// without a group.
pub fn is_stale_stream_widget(name: &String, groups: &Vec<StreamGroup>) -> (r: bool)
    ensures
        r == stale_stream_widget(name@, groups@),
{
    let c = chars_of(name.as_str());
    let prefix = chars_of("stream-app-");
    assert(c@.subrange(0, c@.len() as int) =~= c@);
    if !range_has_prefix(&c, 0, c.len(), &prefix) {
        return false;
    }
    let start = prefix.len();
    let ghost suffix = c@.skip(start as int);
    assert(suffix =~= c@.subrange(start as int, c@.len() as int));
    let mut i: usize = 0;
    while i < groups.len()
        invariant
            i <= groups@.len(),
            start <= c@.len(),
            suffix == c@.subrange(start as int, c@.len() as int),
            suffix == name@.skip(stream_prefix().len() as int),
            has_prefix(name@, stream_prefix()),
            forall|k: int| 0 <= k < i ==> (#[trigger] groups@[k]).app_name@ != suffix,
        decreases groups@.len() - i,
    {
        let g = chars_of(groups[i].app_name.as_str());
        if range_equals(&c, start, c.len(), &g) {
            assert(groups@[i as int].app_name@ == suffix);
            assert(has_group(groups@, suffix));
            return false;
        }
        i = i + 1;
    }
    true
}

/// Decides how to bring the application list up to date with `streams`,
/// given the names of the widgets it shows (`children`, in order): the
/// streams are grouped by application; boxes of applications that no longer
/// play go; with no streams the list shows only the placeholder label, unless
/// one is still there; otherwise a leading placeholder goes and each group's
/// box is updated where it exists and made where it does not.
pub fn plan_stream_list(children: &Vec<String>, streams: &Vec<AudioStream>) -> (plan:
    StreamListPlan)
    ensures
        is_grouping(streams@, plan.groups@),
        removes_stale(plan.remove@, names_view(children@), stream_staleness(plan.groups@)),
        plan.show_placeholder_only == (plan.groups@.len() == 0 && !kept_names(
            names_view(children@),
            stream_staleness(plan.groups@),
        ).contains(placeholder_name())),
        plan.drop_leading_placeholder == (plan.groups@.len() > 0 && kept_names(
            names_view(children@),
            stream_staleness(plan.groups@),
        ).len() > 0 && kept_names(names_view(children@), stream_staleness(plan.groups@))[0]
            == placeholder_name()),
        plan.groups@.len() == 0 ==> plan.steps@.len() == 0,
        plan.groups@.len() > 0 ==> steps_fit(
            plan.steps@,
            without_leading_placeholder(
                kept_names(names_view(children@), stream_staleness(plan.groups@)),
            ),
            stream_entry_names(plan.groups@),
        ),
{
    let groups = group_streams(streams);
    let ghost stale = stream_staleness(groups@);
    let mut flags: Vec<bool> = Vec::new();
    let mut p: usize = 0;
    while p < children.len()
        invariant
            p <= children@.len(),
            flags@.len() == p,
            stale == stream_staleness(groups@),
            forall|q: int| 0 <= q < p ==> flags@[q] == stale(#[trigger] children@[q]@),
        decreases children@.len() - p,
    {
        flags.push(is_stale_stream_widget(&children[p], &groups));
        p = p + 1;
    }
    let (remove, kept) = split_stale(children, &flags, Ghost(stale));
    let placeholder = "placeholder".to_owned();
    if groups.len() == 0 {
        let mut has_placeholder = false;
        let mut i: usize = 0;
        while i < kept.len()
            invariant
                i <= kept@.len(),
                placeholder@ == placeholder_name(),
                has_placeholder == names_view(kept@).take(i as int).contains(placeholder_name()),
            decreases kept@.len() - i,
        {
            let ghost before = names_view(kept@).take(i as int);
            assert(names_view(kept@).take(i + 1) =~= before.push(kept@[i as int]@));
            if kept[i] == placeholder {
                has_placeholder = true;
                assert(names_view(kept@).take(i + 1)[i as int] == placeholder_name());
            } else if has_placeholder {
                proof {
                    let k = choose|k: int| 0 <= k < before.len() && before[k] == placeholder_name();
                    assert(names_view(kept@).take(i + 1)[k] == placeholder_name());
                }
            } else {
                assert forall|k: int| 0 <= k < i + 1 implies #[trigger] names_view(kept@).take(i + 1)[k]
                    != placeholder_name() by {
                    if k < i {
                        assert(names_view(kept@).take(i + 1)[k] == before[k]);
                    }
                }
            }
            i = i + 1;
        }
        assert(names_view(kept@).take(i as int) =~= names_view(kept@));
        return StreamListPlan {
            groups,
            remove,
            show_placeholder_only: !has_placeholder,
            drop_leading_placeholder: false,
            steps: Vec::new(),
        };
    }
    let ghost kv = names_view(kept@);
    let mut base = kept;
    let drop_leading = base.len() > 0 && base[0] == placeholder;
    if drop_leading {
        base.remove(0);
        assert(names_view(base@) =~= kv.drop_first());
    }
    let mut entries: Vec<String> = Vec::new();
    let mut j: usize = 0;
    while j < groups.len()
        invariant
            j <= groups@.len(),
            entries@.len() == j,
            names_view(entries@) == stream_entry_names(groups@).take(j as int),
        decreases groups@.len() - j,
    {
        let ghost before = entries@;
        let name = stream_widget_name_of(&groups[j].app_name);
        entries.push(name);
        assert(stream_entry_names(groups@)[j as int] == name@);
        assert forall|i: int| 0 <= i < j implies names_view(entries@)[i] == stream_entry_names(
            groups@,
        )[i] by {
            assert(entries@[i] == before[i]);
            assert(names_view(before)[i] == stream_entry_names(groups@).take(j as int)[i]);
        }
        j = j + 1;
        assert(names_view(entries@) =~= stream_entry_names(groups@).take(j as int));
    }
    assert(stream_entry_names(groups@).take(j as int) =~= stream_entry_names(groups@));
    let steps = plan_entries(base, &entries);
    StreamListPlan { groups, remove, show_placeholder_only: false, drop_leading_placeholder: drop_leading, steps }
}

/// The text beside a slider: its value in percent, such as `42%`.
pub fn volume_label(volume: u32) -> (r: String)
    ensures
        r@ == decimal(volume as nat) + "%"@,
{
    let mut s = decimal_text(volume);
    s.append("%");
    s
}

} // verus!

verus! {

/// Once the application list is brought up to date, every application that
/// plays has its slider box, every slider box shown is that of an
/// application that plays, and with nothing playing the placeholder shows.
pub proof fn law_stream_list_follows_streams(
    children: Seq<Seq<char>>,
    ss: Seq<AudioStream>,
    gs: Seq<StreamGroup>,
)
    requires
        is_grouping(ss, gs),
    ensures
        forall|m: int|
            0 <= m < ss.len() ==> streams_after_update(children, gs).contains(
                stream_widget_name(#[trigger] ss[m].app_name@),
            ),
        forall|k: int|
            0 <= k < streams_after_update(children, gs).len() && has_prefix(
                #[trigger] streams_after_update(children, gs)[k],
                stream_prefix(),
            ) ==> mentions_app(
                ss,
                streams_after_update(children, gs)[k].skip(stream_prefix().len() as int),
            ),
        ss.len() == 0 ==> streams_after_update(children, gs).contains(placeholder_name()),
{
    let stale = stream_staleness(gs);
    let kept = kept_names(children, stale);
    let after = streams_after_update(children, gs);
    let names = stream_entry_names(gs);
    let plen = stream_prefix().len() as int;
    lemma_kept_names(children, stale);
    assert(!has_prefix(placeholder_name(), stream_prefix())) by {
        reveal_strlit("stream-app-");
        reveal_strlit("placeholder");
        assert(placeholder_name().subrange(0, plen)[0] != stream_prefix()[0]);
    }
    if ss.len() == 0 {
        assert(gs.len() == 0) by {
            if gs.len() > 0 {
                assert(mentions_app(ss, gs[0].app_name@));
            }
        }
        if kept.contains(placeholder_name()) {
        } else {
            assert(after[0] == placeholder_name());
        }
    }
    if gs.len() == 0 {
        assert(ss.len() == 0) by {
            if ss.len() > 0 {
                assert(has_group(gs, ss[0].app_name@));
            }
        }
        assert forall|k: int| 0 <= k < after.len() && has_prefix(#[trigger] after[k], stream_prefix())
            implies mentions_app(ss, after[k].skip(plen)) by {
            if kept.contains(placeholder_name()) {
                assert(!stale(kept[k]));
            }
        }
    } else {
        let base = without_leading_placeholder(kept);
        lemma_after_entries(base, names);
        assert forall|m: int| 0 <= m < ss.len() implies after.contains(
            stream_widget_name(#[trigger] ss[m].app_name@),
        ) by {
            assert(has_group(gs, ss[m].app_name@));
            let i = choose|i: int| 0 <= i < gs.len() && #[trigger] gs[i].app_name@ == ss[m].app_name@;
            assert(names[i] == stream_widget_name(gs[i].app_name@));
        }
        assert forall|k: int| 0 <= k < after.len() && has_prefix(#[trigger] after[k], stream_prefix())
            implies mentions_app(ss, after[k].skip(plen)) by {
            if base.contains(after[k]) {
                let q = choose|q: int| 0 <= q < base.len() && base[q] == after[k];
                if kept.len() > 0 && kept[0] == placeholder_name() {
                    assert(base[q] == kept[q + 1]);
                    assert(!stale(kept[q + 1]));
                } else {
                    assert(!stale(kept[q]));
                }
                let i = choose|i: int|
                    0 <= i < gs.len() && #[trigger] gs[i].app_name@ == after[k].skip(plen);
                assert(mentions_app(ss, gs[i].app_name@));
            } else {
                let i = choose|i: int| 0 <= i < names.len() && names[i] == after[k];
                assert(names[i] == stream_prefix() + gs[i].app_name@);
                assert(after[k].skip(plen) =~= gs[i].app_name@);
                assert(mentions_app(ss, gs[i].app_name@));
            }
        }
    }
}

} // verus!

verus! {

/// The text of the placeholder label of an empty application list.
pub fn empty_stream_list_text() -> (r: &'static str)
    ensures
        r@ == "No applications playing audio"@,
{
    "No applications playing audio"
}

} // verus!

verus! {

/// The slider box that an earlier update made for an application that still
/// plays stays: it is not removed, and the application's step updates it in
/// place instead of making a new one.
pub proof fn law_stream_boxes_kept(
    children: Seq<Seq<char>>,
    ss: Seq<AudioStream>,
    gs: Seq<StreamGroup>,
    q: int,
    i: int,
    step: EntryStep,
)
    requires
        is_grouping(ss, gs),
        0 <= q < children.len(),
        0 <= i < gs.len(),
        children[q] == stream_widget_name(gs[i].app_name@),
    ensures
        !stale_stream_widget(children[q], gs),
        streams_after_update(children, gs).contains(children[q]),
        step_fits(
            step,
            after_entries(
                without_leading_placeholder(kept_names(children, stream_staleness(gs))),
                stream_entry_names(gs).take(i),
            ),
            stream_entry_names(gs)[i],
        ) ==> step is Update,
{
    let stale = stream_staleness(gs);
    let kept = kept_names(children, stale);
    let base = without_leading_placeholder(kept);
    let names = stream_entry_names(gs);
    let name = children[q];
    let plen = stream_prefix().len() as int;
    assert(name.subrange(0, plen) =~= stream_prefix());
    assert(name.skip(plen) =~= gs[i].app_name@);
    assert(has_group(gs, gs[i].app_name@));
    assert(!stale(name));
    assert(name != placeholder_name()) by {
        reveal_strlit("stream-app-");
        reveal_strlit("placeholder");
        assert(name[0] != placeholder_name()[0]);
    }
    lemma_kept_names_keeps(children, stale, q);
    let k = choose|k: int| 0 <= k < kept.len() && kept[k] == name;
    assert(base.contains(name)) by {
        if kept.len() > 0 && kept[0] == placeholder_name() {
            assert(k > 0);
            assert(base[k - 1] == name);
        } else {
            assert(base[k] == name);
        }
    }
    let kb = choose|kb: int| 0 <= kb < base.len() && base[kb] == name;
    lemma_after_entries_keeps(base, names);
    assert(streams_after_update(children, gs)[kb] == name);
    assert(names[i] == name);
    if step_fits(step, after_entries(base, names.take(i)), names[i]) {
        lemma_present_widget_is_updated(base, names, i, step);
    }
}

} // verus!

verus! {

/// The application list never shows a name twice: if the widgets shown have
/// no name twice, the updated list has no name twice either.
pub proof fn law_stream_list_no_duplicates(children: Seq<Seq<char>>, gs: Seq<StreamGroup>)
    requires
        no_duplicates(children),
    ensures
        no_duplicates(streams_after_update(children, gs)),
{
    let stale = stream_staleness(gs);
    let kept = kept_names(children, stale);
    lemma_kept_names_no_duplicates(children, stale);
    if gs.len() > 0 {
        let base = without_leading_placeholder(kept);
        assert(no_duplicates(base)) by {
            if kept.len() > 0 && kept[0] == placeholder_name() {
                assert forall|i: int, j: int| 0 <= i < j < base.len() implies base[i] != base[j] by {
                    assert(base[i] == kept[i + 1] && base[j] == kept[j + 1]);
                }
            }
        }
        lemma_after_entries_no_duplicates(base, stream_entry_names(gs));
    }
}

} // verus!

verus! {

proof fn lemma_app_specs_as_filter(ss: Seq<AudioStream>, app: Seq<char>)
    ensures
        app_indices(ss, app) == ss.filter(|s: AudioStream| s.app_name@ == app).map_values(
            |s: AudioStream| s.index,
        ),
        app_volume_total(ss, app) == ss.filter(|s: AudioStream| s.app_name@ == app).fold_left(
            0int,
            |acc: int, s: AudioStream| acc + s.volume,
        ),
    decreases ss.len(),
{
    let pred = |s: AudioStream| s.app_name@ == app;
    if ss.len() == 0 {
        reveal(Seq::filter);
        assert(ss.filter(pred).len() == 0);
        assert(ss.filter(pred).map_values(|s: AudioStream| s.index) =~= Seq::<u32>::empty());
    } else {
        let init = ss.drop_last();
        lemma_app_specs_as_filter(init, app);
        assert(init.push(ss.last()) =~= ss);
        init.lemma_filter_push(ss.last(), pred);
        let f = init.filter(pred);
        if pred(ss.last()) {
            assert(f.push(ss.last()).map_values(|s: AudioStream| s.index) =~= f.map_values(
                |s: AudioStream| s.index,
            ).push(ss.last().index));
            assert(f.push(ss.last()).drop_last() =~= f);
        }
    }
}

/// A group holds exactly its application's streams: its indices are those
/// of the streams with its name, in stream order, there is at least one such
/// stream, and its volume is their volume sum divided by their number,
/// rounded down.
pub proof fn law_group_holds_its_app_streams(ss: Seq<AudioStream>, gs: Seq<StreamGroup>, i: int)
    requires
        is_grouping(ss, gs),
        0 <= i < gs.len(),
    ensures
        ({
            let app = gs[i].app_name@;
            let mine = ss.filter(|s: AudioStream| s.app_name@ == app);
            &&& mine.len() > 0
            &&& gs[i].indices@ == mine.map_values(|s: AudioStream| s.index)
            &&& gs[i].volume == mine.fold_left(0int, |acc: int, s: AudioStream| acc + s.volume)
                / (mine.len() as int)
        }),
{
    let app = gs[i].app_name@;
    lemma_app_specs_as_filter(ss, app);
    lemma_app_bounds(ss, app);
    assert(mentions_app(ss, app));
    let mine = ss.filter(|s: AudioStream| s.app_name@ == app);
    assert(mine.map_values(|s: AudioStream| s.index).len() == mine.len());
}

} // verus!
