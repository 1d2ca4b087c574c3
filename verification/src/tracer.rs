//! The event-driven tracer core: entry/exit pairing of syscall records,
//! per-process state updates, and stack attribution of capabilities to the
//! frames observed at each successful syscall exit.
use vstd::prelude::*;

use crate::capmap::CapSet;
use crate::caps::CapabilityType;
use crate::function::parse_mangled_name;
use crate::process::{Error, Exec, ProcessMap, State};
use crate::report::{Function, Location, Report};
use crate::seccomp::CapabilityMap;
use crate::syscall::{Meta, SyscallArgs};
use crate::text::str_eq;

verus! {

/// One named stack frame observed at a syscall exit, deepest first, with
/// its source location when lookup is enabled.
pub struct Frame {
    pub name: String,
    pub location: Option<Location>,
}

/// Whether some frame is the process entry point `_start`.
pub open spec fn spec_has_start(frames: Seq<Frame>) -> bool {
    exists|i: int| 0 <= i < frames.len() && (#[trigger] frames[i]).name@ == "_start"@
}

/// Whether a frame's symbol canonicalizes.
pub open spec fn spec_frame_parses(f: Frame) -> bool {
    crate::function::spec_mangled_parses(f.name@)
}

/// The first index at or after `from` whose frame canonicalizes, or the
/// frame count when none does.
pub open spec fn spec_next_parseable(frames: Seq<Frame>, from: int) -> int
    decreases frames.len() - from,
{
    if from >= frames.len() {
        frames.len() as int
    } else if spec_frame_parses(frames[from]) {
        from
    } else {
        spec_next_parseable(frames, from + 1)
    }
}

/// `spec_next_parseable` is the first canonicalizing index at or after
/// `from`.
proof fn lemma_next_parseable(frames: Seq<Frame>, from: int)
    requires
        0 <= from <= frames.len(),
    ensures
        from <= spec_next_parseable(frames, from) <= frames.len(),
        forall|j: int|
            from <= j < spec_next_parseable(frames, from) ==> !spec_frame_parses(
                #[trigger] frames[j],
            ),
        spec_next_parseable(frames, from) < frames.len() ==> spec_frame_parses(
            frames[spec_next_parseable(frames, from)],
        ),
    decreases frames.len() - from,
{
    if from < frames.len() && !spec_frame_parses(frames[from]) {
        lemma_next_parseable(frames, from + 1);
    }
}

/// The function record attribution writes for a fresh frame: its
/// canonicalized identity, the frame's location, every capability of the
/// syscall at exactly the given type, and the syscall name exactly when it
/// is being recorded.
#[verifier::opaque]
pub open spec fn spec_attributed_entry(
    f: Function,
    frame: Frame,
    caps: CapSet,
    ty: CapabilityType,
    with_syscall: bool,
    syscall_name: Seq<char>,
) -> bool {
    &&& f.name@ == crate::function::spec_parsed_view(frame.name@)
    &&& f.location == frame.location
    &&& (forall|c: crate::caps::Capability|
        #[trigger] crate::capmap::spec_get(f.capabilities@, c) == (
        if crate::capmap::spec_set_contains(caps@, c) {
            Some(ty)
        } else {
            None::<CapabilityType>
        }))
    &&& (with_syscall ==> crate::strset::spec_strs_contain(f.syscalls@, syscall_name))
    &&& (!with_syscall ==> f.syscalls@ == Seq::<Seq<char>>::empty())
}

/// The records of frames `a` and `b` stand in the call graph with an
/// edge from the `b` frame (the caller) to the `a` frame (its callee).
#[verifier::opaque]
pub open spec fn spec_frames_linked(post: State, frames: Seq<Frame>, a: int, b: int) -> bool {
    exists|ia: usize, ib: usize|
        crate::function::spec_find_name(post.functions.names(), frames[a].name@) == Some(
            ia as int,
        ) && crate::function::spec_find_name(post.functions.names(), frames[b].name@) == Some(
            ib as int,
        ) && #[trigger] crate::graph::spec_has_edge(post.call_graph.edges(), ib, ia)
}

/// Everything `attribute_frames` does: the waiting-for-start handshake,
/// the untouched parts of the state, the append-only function table and
/// call graph, and — once attribution runs — that every canonicalizing
/// frame is recorded, the deepest new one as `Direct` with the syscall
/// name when recording, new unrepeated ones above it as `Transitive`,
/// with a call edge from each canonicalizing frame to the nearest one
/// below it.
pub open spec fn spec_attributed(
    pre: State,
    post: State,
    frames: Seq<Frame>,
    caps: CapSet,
    include_syscalls: bool,
    syscall_name: Seq<char>,
) -> bool {
    &&& post.waiting_for_start == (pre.waiting_for_start && !spec_has_start(frames))
    &&& post.fds == pre.fds
    &&& post.wd == pre.wd
    &&& post.execs == pre.execs
    &&& post.caps == pre.caps
    &&& post.pid == pre.pid
    &&& ((pre.waiting_for_start && !spec_has_start(frames)) ==> post.functions == pre.functions
        && post.call_graph == pre.call_graph)
    &&& post.functions.funcs().len() >= pre.functions.funcs().len()
    &&& post.functions.names().len() >= pre.functions.names().len()
    &&& (forall|i: int|
        0 <= i < pre.functions.funcs().len() ==> post.functions.funcs()[i]
            == pre.functions.funcs()[i])
    &&& (forall|i: int|
        0 <= i < pre.functions.names().len() ==> post.functions.names()[i]
            == pre.functions.names()[i])
    &&& (forall|a: usize, b: usize|
        crate::graph::spec_has_edge(pre.call_graph.edges(), a, b)
            ==> crate::graph::spec_has_edge(post.call_graph.edges(), a, b))
    &&& (!post.waiting_for_start ==> forall|k: int|
        0 <= k < frames.len() && spec_frame_parses(#[trigger] frames[k])
            ==> crate::function::spec_find_name(post.functions.names(), frames[k].name@) is Some)
    // The deepest canonicalizing frame, when its symbol is new, is
    // recorded with the capabilities as Direct (and the syscall name when
    // recording).
    &&& (!post.waiting_for_start ==> ({
        let k0 = spec_next_parseable(frames, 0);
        (k0 < frames.len() && crate::function::spec_find_name(
            pre.functions.names(),
            frames[k0].name@,
        ) is None) ==> {
            let idx = pre.functions.names().len() as int;
            &&& idx < post.functions.funcs().len()
            &&& post.functions.names()[idx] == frames[k0].name@
            &&& spec_attributed_entry(
                post.functions.funcs()[idx],
                frames[k0],
                caps,
                CapabilityType::Direct,
                include_syscalls,
                syscall_name,
            )
        }
    }))
    // A canonicalizing frame above the deepest one, when its symbol is
    // new to the table and unrepeated below it, is recorded with the
    // capabilities as Transitive and no syscall.
    &&& (!post.waiting_for_start ==> forall|k: int|
        (0 <= k < frames.len() && spec_frame_parses(#[trigger] frames[k])
            && k != spec_next_parseable(frames, 0) && crate::function::spec_find_name(
            pre.functions.names(),
            frames[k].name@,
        ) is None && (forall|j: int|
            0 <= j < k ==> (#[trigger] frames[j]).name@ != frames[k].name@))
            ==> spec_fresh_transitive(post, frames, k, caps, syscall_name))
    // Each canonicalizing frame is linked by a call edge to the nearest
    // canonicalizing frame below it.
    &&& (!post.waiting_for_start ==> forall|a: int, b: int|
        (0 <= a < b < frames.len() && spec_frame_parses(#[trigger] frames[a])
            && spec_frame_parses(#[trigger] frames[b]) && (forall|m: int|
            a < m < b ==> !spec_frame_parses(#[trigger] frames[m]))) ==> spec_frames_linked(
            post,
            frames,
            a,
            b,
        ))
}

/// Record one frame during attribution: a canonicalizing symbol is
/// upserted (a fresh one with the given role and capabilities), and an
/// edge to the previously recorded frame is added.
fn attribute_one_frame(
    state: &mut State,
    frame: &Frame,
    caps: &CapSet,
    include_syscalls: bool,
    child_idx: Option<usize>,
    syscall_name: &str,
) -> (r: Option<usize>)
    requires
        old(state).wf(),
        caps.wf(),
    ensures
        final(state).wf(),
        final(state).fds == old(state).fds,
        final(state).wd == old(state).wd,
        final(state).execs == old(state).execs,
        final(state).caps == old(state).caps,
        final(state).pid == old(state).pid,
        final(state).waiting_for_start == old(state).waiting_for_start,
        match r {
            Some(idx) => {
                &&& spec_frame_parses(*frame)
                &&& crate::function::spec_find_name(
                    final(state).functions.names(),
                    frame.name@,
                ) == Some(idx as int)
                &&& (crate::function::spec_find_name(
                    old(state).functions.names(),
                    frame.name@,
                ) is Some ==> final(state).functions.names() == old(state).functions.names()
                    && final(state).functions.funcs() == old(state).functions.funcs())
                &&& (crate::function::spec_find_name(
                    old(state).functions.names(),
                    frame.name@,
                ) is None ==> {
                    &&& idx as int == old(state).functions.names().len()
                    &&& final(state).functions.names() == old(state).functions.names().push(
                        frame.name@,
                    )
                    &&& final(state).functions.funcs().len() == old(state).functions.funcs().len() + 1
                    &&& (forall|i: int|
                        0 <= i < old(state).functions.funcs().len() ==> final(state).functions.funcs()[i] == old(state).functions.funcs()[i])
                    &&& spec_attributed_entry(
                        final(state).functions.funcs()[idx as int],
                        *frame,
                        *caps,
                        if child_idx is None {
                            CapabilityType::Direct
                        } else {
                            CapabilityType::Transitive
                        },
                        include_syscalls && child_idx is None,
                        syscall_name@,
                    )
                })
                &&& (match child_idx {
                    Some(c) => final(state).call_graph.edges() == crate::graph::spec_add_edge(
                        old(state).call_graph.edges(),
                        idx,
                        c,
                        None,
                    ),
                    None => final(state).call_graph == old(state).call_graph,
                })
            },
            None => !spec_frame_parses(*frame) && *final(state) == *old(state),
        },
{
    let is_direct = child_idx.is_none();
    let ty = if is_direct {
        CapabilityType::Direct
    } else {
        CapabilityType::Transitive
    };
    match parse_mangled_name(frame.name.as_str()) {
        Ok(name) => {
            proof {
                assert(spec_frame_parses(*frame));
                assert(name@ == crate::function::spec_parsed_view(frame.name@));
            }
            let mut func = Function::new(name, crate::report::clone_location_opt(&frame.location));
            let n = caps.len();
            let mut m: usize = 0;
            while m < n
                invariant
                    m <= n,
                    n == caps@.len(),
                    caps.wf(),
                    func.wf(),
                    func.name@ == crate::function::spec_parsed_view(frame.name@),
                    func.location == frame.location,
                    func.syscalls@ == Seq::<Seq<char>>::empty(),
                    forall|c: crate::caps::Capability|
                        #[trigger] crate::capmap::spec_get(func.capabilities@, c) == (if exists|
                            j: int,
                        | 0 <= j < m && caps@[j] == c {
                            Some(ty)
                        } else {
                            None::<CapabilityType>
                        }),
                decreases n - m,
            {
                let c = caps.item_at(m);
                func.insert_capability(c, ty);
                proof {
                    assert forall|d: crate::caps::Capability|
                        #[trigger] crate::capmap::spec_get(func.capabilities@, d) == (if exists|
                            j: int,
                        | 0 <= j < m + 1 && caps@[j] == d {
                            Some(ty)
                        } else {
                            None::<CapabilityType>
                        }) by {
                        if d == c {
                            assert(caps@[m as int] == d);
                        } else {
                            if exists|j: int| 0 <= j < m + 1 && caps@[j] == d {
                                let j = choose|j: int| 0 <= j < m + 1 && caps@[j] == d;
                                assert(j < m);
                            }
                        }
                    }
                }
                m += 1;
            }
            proof {
                assert forall|c: crate::caps::Capability|
                    #[trigger] crate::capmap::spec_get(func.capabilities@, c) == (
                if crate::capmap::spec_set_contains(caps@, c) {
                    Some(ty)
                } else {
                    None::<CapabilityType>
                }) by {}
            }
            if include_syscalls && is_direct {
                func.insert_syscall(String::from_str(syscall_name));
            }
            proof {
                reveal(spec_attributed_entry);
                assert(spec_attributed_entry(
                    func,
                    *frame,
                    *caps,
                    ty,
                    include_syscalls && is_direct,
                    syscall_name@,
                ));
            }
            let ghost names_before = state.functions.names();
            let idx = state.upsert_function(frame.name.as_str(), func);
            proof {
                crate::function::lemma_find_name_props(names_before, frame.name@);
                if crate::function::spec_find_name(names_before, frame.name@) is None {
                    crate::function::lemma_find_name_at(
                        state.functions.names(),
                        frame.name@,
                        names_before.len() as int,
                    );
                } else {
                    crate::function::lemma_find_name_extend(
                        names_before,
                        state.functions.names(),
                        frame.name@,
                    );
                }
            }
            if let Some(c) = child_idx {
                state.add_edge(idx, c);
            }
            Some(idx)
        },
        Err(_) => {
            proof {
                assert(!spec_frame_parses(*frame));
            }
            None
        },
    }
}

/// The attribution loop's running link state after `k` frames: where the
/// last canonicalizing frame stands, which record it resolved to, and
/// that every adjacent pair of canonicalizing frames seen so far is
/// linked in the call graph.
#[verifier::opaque]
pub open spec fn spec_links_upto(
    st: State,
    frames: Seq<Frame>,
    k: int,
    last_k: int,
    child: Option<usize>,
) -> bool {
    &&& (child is Some ==> ({
        &&& 0 <= last_k < k
        &&& spec_frame_parses(frames[last_k])
        &&& (forall|m: int| last_k < m < k ==> !spec_frame_parses(#[trigger] frames[m]))
        &&& crate::function::spec_find_name(st.functions.names(), frames[last_k].name@) == Some(
            child.unwrap() as int,
        )
    }))
    &&& (child is None ==> (forall|j: int| 0 <= j < k ==> !spec_frame_parses(#[trigger] frames[j])))
    &&& (forall|a: int, b: int|
        (0 <= a < b < k && spec_frame_parses(#[trigger] frames[a]) && spec_frame_parses(
            #[trigger] frames[b],
        ) && (forall|m: int| a < m < b ==> !spec_frame_parses(#[trigger] frames[m])))
            ==> spec_frames_linked(st, frames, a, b))
}

/// One attribution step keeps every accumulated frame link and adds the
/// link from the processed frame to the nearest canonicalizing frame
/// below it.
proof fn lemma_attr_edges_step(
    st0: State,
    st1: State,
    frames: Seq<Frame>,
    k: int,
    last_k: int,
    prev_child: Option<usize>,
    r: Option<usize>,
)
    requires
        0 <= k < frames.len(),
        prev_child is Some ==> ({
            &&& 0 <= last_k < k
            &&& spec_frame_parses(frames[last_k])
            &&& (forall|m: int| last_k < m < k ==> !spec_frame_parses(#[trigger] frames[m]))
            &&& crate::function::spec_find_name(st0.functions.names(), frames[last_k].name@)
                == Some(prev_child.unwrap() as int)
        }),
        prev_child is None ==> (forall|j: int|
            0 <= j < k ==> !spec_frame_parses(#[trigger] frames[j])),
        forall|a: int, b: int|
            (0 <= a < b < k && spec_frame_parses(#[trigger] frames[a]) && spec_frame_parses(
                #[trigger] frames[b],
            ) && (forall|m: int| a < m < b ==> !spec_frame_parses(#[trigger] frames[m])))
                ==> spec_frames_linked(st0, frames, a, b),
        match r {
            Some(idx) => {
                &&& spec_frame_parses(frames[k])
                &&& crate::function::spec_find_name(st1.functions.names(), frames[k].name@)
                    == Some(idx as int)
                &&& (crate::function::spec_find_name(st0.functions.names(), frames[k].name@)
                    is Some ==> st1.functions.names() == st0.functions.names())
                &&& (crate::function::spec_find_name(st0.functions.names(), frames[k].name@)
                    is None ==> st1.functions.names() == st0.functions.names().push(
                    frames[k].name@,
                ))
                &&& (match prev_child {
                    Some(c) => st1.call_graph.edges() == crate::graph::spec_add_edge(
                        st0.call_graph.edges(),
                        idx,
                        c,
                        None,
                    ),
                    None => st1.call_graph == st0.call_graph,
                })
            },
            None => !spec_frame_parses(frames[k]) && st1 == st0,
        },
    ensures
        forall|a: int, b: int|
            (0 <= a < b < k + 1 && spec_frame_parses(#[trigger] frames[a]) && spec_frame_parses(
                #[trigger] frames[b],
            ) && (forall|m: int| a < m < b ==> !spec_frame_parses(#[trigger] frames[m])))
                ==> spec_frames_linked(st1, frames, a, b),
{
    assert forall|a: int, b: int|
        (0 <= a < b < k + 1 && spec_frame_parses(#[trigger] frames[a]) && spec_frame_parses(
            #[trigger] frames[b],
        ) && (forall|m: int| a < m < b ==> !spec_frame_parses(#[trigger] frames[m])))
            implies spec_frames_linked(st1, frames, a, b) by {
        reveal(spec_frames_linked);
        if b == k {
            if prev_child is None {
                assert(!spec_frame_parses(frames[a]));
            }
            let cval = prev_child.unwrap();
            if a < last_k {
                assert(!spec_frame_parses(frames[last_k]));
            } else if a > last_k {
                assert(!spec_frame_parses(frames[a]));
            }
            let idx = r.unwrap();
            if crate::function::spec_find_name(st0.functions.names(), frames[k].name@) is None {
                crate::function::lemma_find_name_extend(
                    st0.functions.names(),
                    st1.functions.names(),
                    frames[last_k].name@,
                );
            }
            assert(crate::function::spec_find_name(st1.functions.names(), frames[last_k].name@)
                == Some(cval as int));
            crate::graph::lemma_add_edge_pairs(
                st0.call_graph.edges(),
                idx,
                cval,
                None,
                idx,
                cval,
            );
            assert(crate::graph::spec_has_edge(st1.call_graph.edges(), idx, cval));
        } else {
            assert(spec_frames_linked(st0, frames, a, b));
            let (ia, ib) = choose|ia: usize, ib: usize|
                crate::function::spec_find_name(st0.functions.names(), frames[a].name@) == Some(
                    ia as int,
                ) && crate::function::spec_find_name(st0.functions.names(), frames[b].name@)
                    == Some(ib as int) && #[trigger] crate::graph::spec_has_edge(
                    st0.call_graph.edges(),
                    ib,
                    ia,
                );
            if r is Some && crate::function::spec_find_name(
                st0.functions.names(),
                frames[k].name@,
            ) is None {
                crate::function::lemma_find_name_extend(
                    st0.functions.names(),
                    st1.functions.names(),
                    frames[a].name@,
                );
                crate::function::lemma_find_name_extend(
                    st0.functions.names(),
                    st1.functions.names(),
                    frames[b].name@,
                );
            }
            if r is Some && prev_child is Some {
                crate::graph::lemma_add_edge_pairs(
                    st0.call_graph.edges(),
                    r.unwrap(),
                    prev_child.unwrap(),
                    None,
                    ib,
                    ia,
                );
            }
            assert(crate::graph::spec_has_edge(st1.call_graph.edges(), ib, ia));
        }
    }
}

/// Frame `k`'s symbol resolves to a record that is exactly a fresh
/// `Transitive` attribution of the capabilities, with no syscall
/// recorded.
#[verifier::opaque]
pub open spec fn spec_fresh_transitive(
    post: State,
    frames: Seq<Frame>,
    k: int,
    caps: CapSet,
    syscall_name: Seq<char>,
) -> bool {
    exists|idx: int|
        0 <= idx < post.functions.funcs().len() && #[trigger] crate::function::spec_find_name(
            post.functions.names(),
            frames[k].name@,
        ) == Some(idx) && spec_attributed_entry(
            post.functions.funcs()[idx],
            frames[k],
            caps,
            CapabilityType::Transitive,
            false,
            syscall_name,
        )
}

/// The attribution loop's running table state after `k` frames: the
/// prior table is a prefix, every appended name belongs to a frame
/// already seen, and each canonicalizing frame above the deepest one
/// whose symbol was new and unrepeated carries a fresh `Transitive`
/// record.
#[verifier::opaque]
pub open spec fn spec_fresh_upto(
    pre: State,
    st: State,
    frames: Seq<Frame>,
    k: int,
    k0: int,
    caps: CapSet,
    syscall_name: Seq<char>,
) -> bool {
    &&& pre.functions.names().len() <= st.functions.names().len()
    &&& (forall|i: int|
        0 <= i < pre.functions.names().len() ==> st.functions.names()[i]
            == pre.functions.names()[i])
    &&& (forall|i: int|
        pre.functions.names().len() <= i < st.functions.names().len()
            ==> exists|j: int|
            0 <= j < k && (#[trigger] frames[j]).name@ == #[trigger] st.functions.names()[i])
    &&& (forall|k2: int|
        (0 <= k2 < k && spec_frame_parses(#[trigger] frames[k2]) && k2 != k0
            && crate::function::spec_find_name(pre.functions.names(), frames[k2].name@) is None
            && (forall|j: int| 0 <= j < k2 ==> (#[trigger] frames[j]).name@ != frames[k2].name@))
            ==> spec_fresh_transitive(st, frames, k2, caps, syscall_name))
}

/// One attribution step carries the running table state forward: a fresh
/// symbol above the deepest canonicalizing frame gains a `Transitive`
/// record, and every record already written survives.
proof fn lemma_fresh_step(
    pre: State,
    st0: State,
    st1: State,
    frames: Seq<Frame>,
    k: int,
    k0: int,
    child: Option<usize>,
    r: Option<usize>,
    caps: CapSet,
    include_syscalls: bool,
    syscall_name: Seq<char>,
)
    requires
        0 <= k < frames.len(),
        0 <= k0,
        child is None <==> k0 >= k,
        forall|j: int| 0 <= j < k0 ==> !spec_frame_parses(#[trigger] frames[j]),
        st0.functions.names().len() == st0.functions.funcs().len(),
        spec_fresh_upto(pre, st0, frames, k, k0, caps, syscall_name),
        match r {
            Some(idx) => {
                &&& spec_frame_parses(frames[k])
                &&& crate::function::spec_find_name(st1.functions.names(), frames[k].name@)
                    == Some(idx as int)
                &&& (crate::function::spec_find_name(st0.functions.names(), frames[k].name@)
                    is Some ==> st1.functions.names() == st0.functions.names()
                    && st1.functions.funcs() == st0.functions.funcs())
                &&& (crate::function::spec_find_name(st0.functions.names(), frames[k].name@)
                    is None ==> {
                    &&& idx as int == st0.functions.names().len()
                    &&& st1.functions.names() == st0.functions.names().push(frames[k].name@)
                    &&& st1.functions.funcs().len() == st0.functions.funcs().len() + 1
                    &&& (forall|i: int|
                        0 <= i < st0.functions.funcs().len() ==> st1.functions.funcs()[i]
                            == st0.functions.funcs()[i])
                    &&& spec_attributed_entry(
                        st1.functions.funcs()[idx as int],
                        frames[k],
                        caps,
                        if child is None {
                            CapabilityType::Direct
                        } else {
                            CapabilityType::Transitive
                        },
                        include_syscalls && child is None,
                        syscall_name,
                    )
                })
            },
            None => !spec_frame_parses(frames[k]) && st1 == st0,
        },
    ensures
        spec_fresh_upto(pre, st1, frames, k + 1, k0, caps, syscall_name),
{
    reveal(spec_fresh_upto);
    reveal(spec_fresh_transitive);
    if r is Some {
        let idx = r.unwrap();
        let fresh = crate::function::spec_find_name(st0.functions.names(), frames[k].name@)
            is None;
        // Records already written survive this step.
        assert forall|k2: int|
            (0 <= k2 < k && spec_frame_parses(#[trigger] frames[k2]) && k2 != k0
                && crate::function::spec_find_name(pre.functions.names(), frames[k2].name@)
                is None && (forall|j: int|
                0 <= j < k2 ==> (#[trigger] frames[j]).name@ != frames[k2].name@))
                implies spec_fresh_transitive(st1, frames, k2, caps, syscall_name) by {
            assert(spec_fresh_transitive(st0, frames, k2, caps, syscall_name));
            let idx2 = choose|idx2: int|
                0 <= idx2 < st0.functions.funcs().len()
                    && #[trigger] crate::function::spec_find_name(
                    st0.functions.names(),
                    frames[k2].name@,
                ) == Some(idx2) && spec_attributed_entry(
                    st0.functions.funcs()[idx2],
                    frames[k2],
                    caps,
                    CapabilityType::Transitive,
                    false,
                    syscall_name,
                );
            if fresh {
                crate::function::lemma_find_name_extend(
                    st0.functions.names(),
                    st1.functions.names(),
                    frames[k2].name@,
                );
            }
            assert(st1.functions.funcs()[idx2] == st0.functions.funcs()[idx2]);
        }
        // A fresh unrepeated symbol above the deepest canonicalizing
        // frame was written as a Transitive record.
        if k != k0 && crate::function::spec_find_name(pre.functions.names(), frames[k].name@)
            is None && (forall|j: int| 0 <= j < k ==> (#[trigger] frames[j]).name@ != frames[k].name@) {
            assert(k > k0);
            crate::function::lemma_find_name_props(st0.functions.names(), frames[k].name@);
            if !fresh {
                let i = crate::function::spec_find_name(
                    st0.functions.names(),
                    frames[k].name@,
                ).unwrap();
                if i < pre.functions.names().len() {
                    crate::function::lemma_find_name_exists(
                        pre.functions.names(),
                        frames[k].name@,
                    );
                }
                assert(false);
            }
            assert(spec_fresh_transitive(st1, frames, k, caps, syscall_name));
        }
    }
}

/// One attribution step carries the running link state forward: a
/// canonicalizing frame becomes the new nearest one, any other leaves it
/// alone, and the accumulated links survive either way.
proof fn lemma_links_step(
    st0: State,
    st1: State,
    frames: Seq<Frame>,
    k: int,
    last_k: int,
    child: Option<usize>,
    r: Option<usize>,
)
    requires
        0 <= k < frames.len(),
        spec_links_upto(st0, frames, k, last_k, child),
        match r {
            Some(idx) => {
                &&& spec_frame_parses(frames[k])
                &&& crate::function::spec_find_name(st1.functions.names(), frames[k].name@)
                    == Some(idx as int)
                &&& (crate::function::spec_find_name(st0.functions.names(), frames[k].name@)
                    is Some ==> st1.functions.names() == st0.functions.names())
                &&& (crate::function::spec_find_name(st0.functions.names(), frames[k].name@)
                    is None ==> st1.functions.names() == st0.functions.names().push(
                    frames[k].name@,
                ))
                &&& (match child {
                    Some(c) => st1.call_graph.edges() == crate::graph::spec_add_edge(
                        st0.call_graph.edges(),
                        idx,
                        c,
                        None,
                    ),
                    None => st1.call_graph == st0.call_graph,
                })
            },
            None => !spec_frame_parses(frames[k]) && st1 == st0,
        },
    ensures
        match r {
            Some(idx) => spec_links_upto(st1, frames, k + 1, k, Some(idx)),
            None => spec_links_upto(st1, frames, k + 1, last_k, child),
        },
{
    reveal(spec_links_upto);
    lemma_attr_edges_step(st0, st1, frames, k, last_k, child, r);
    match r {
        Some(idx) => {
            assert(spec_links_upto(st1, frames, k + 1, k, Some(idx)));
        },
        None => {
            assert(spec_links_upto(st1, frames, k + 1, last_k, child));
        },
    }
}

/// Attribute a syscall's capabilities to the stack, exactly as
/// `spec_attributed` describes: the deepest canonicalizing frame takes
/// them as `Direct` (and the syscall name, when recording syscalls), every
/// caller above it as `Transitive`, with call edges added from each frame
/// to the one below it; a frame already recorded keeps its prior entry.
/// Seeing `_start` clears the waiting flag; while the flag is set nothing
/// is attributed.
#[verifier::rlimit(100)]
pub fn attribute_frames(
    state: &mut State,
    frames: &Vec<Frame>,
    caps: &CapSet,
    include_syscalls: bool,
    syscall_name: &str,
)
    requires
        old(state).wf(),
        caps.wf(),
    ensures
        final(state).wf(),
        spec_attributed(
            *old(state),
            *final(state),
            frames@,
            *caps,
            include_syscalls,
            syscall_name@,
        ),
{
    let mut saw = false;
    let mut i: usize = 0;
    while i < frames.len()
        invariant
            i <= frames@.len(),
            saw == exists|j: int| 0 <= j < i && (#[trigger] frames@[j]).name@ == "_start"@,
        decreases frames@.len() - i,
    {
        if str_eq(frames[i].name.as_str(), "_start") {
            saw = true;
            proof {
                assert(frames@[i as int].name@ == "_start"@);
            }
        }
        i += 1;
    }
    if saw {
        state.start_seen();
    }
    if !state.is_waiting_for_start() {
        let ghost k0 = spec_next_parseable(frames@, 0);
        proof {
            lemma_next_parseable(frames@, 0);
        }
        let mut child_idx: Option<usize> = None;
        let ghost mut last_k: int = 0;
        proof {
            reveal(spec_links_upto);
            assert(spec_links_upto(*state, frames@, 0, 0, None::<usize>));
            reveal(spec_fresh_upto);
            assert(spec_fresh_upto(
                *old(state),
                *state,
                frames@,
                0,
                k0,
                *caps,
                syscall_name@,
            ));
        }
        let mut k: usize = 0;
        while k < frames.len()
            invariant
                k <= frames@.len(),
                state.wf(),
                caps.wf(),
                k0 == spec_next_parseable(frames@, 0),
                0 <= k0 <= frames@.len(),
                forall|j: int| 0 <= j < k0 ==> !spec_frame_parses(#[trigger] frames@[j]),
                k0 < frames@.len() ==> spec_frame_parses(frames@[k0]),
                child_idx is None <==> k0 >= k,
                child_idx is None ==> state.functions == old(state).functions
                    && state.call_graph == old(state).call_graph,
                spec_links_upto(*state, frames@, k as int, last_k, child_idx),
                spec_fresh_upto(
                    *old(state),
                    *state,
                    frames@,
                    k as int,
                    k0,
                    *caps,
                    syscall_name@,
                ),
                (k > k0 && crate::function::spec_find_name(
                    old(state).functions.names(),
                    frames@[k0].name@,
                ) is None) ==> {
                    let idx = old(state).functions.names().len() as int;
                    &&& idx < state.functions.funcs().len()
                    &&& state.functions.names()[idx] == frames@[k0].name@
                    &&& spec_attributed_entry(
                        state.functions.funcs()[idx],
                        frames@[k0],
                        *caps,
                        CapabilityType::Direct,
                        include_syscalls,
                        syscall_name@,
                    )
                },
                state.fds == old(state).fds,
                state.wd == old(state).wd,
                state.execs == old(state).execs,
                state.caps == old(state).caps,
                state.pid == old(state).pid,
                state.waiting_for_start == (old(state).waiting_for_start && !spec_has_start(
                    frames@,
                )),
                !state.waiting_for_start,
                state.functions.funcs().len() >= old(state).functions.funcs().len(),
                state.functions.names().len() >= old(state).functions.names().len(),
                forall|i: int|
                    0 <= i < old(state).functions.funcs().len() ==> state.functions.funcs()[i]
                        == old(state).functions.funcs()[i],
                forall|i: int|
                    0 <= i < old(state).functions.names().len() ==> state.functions.names()[i]
                        == old(state).functions.names()[i],
                forall|a: usize, b: usize|
                    crate::graph::spec_has_edge(old(state).call_graph.edges(), a, b)
                        ==> crate::graph::spec_has_edge(state.call_graph.edges(), a, b),
                forall|k2: int|
                    0 <= k2 < k && spec_frame_parses(#[trigger] frames@[k2])
                        ==> crate::function::spec_find_name(
                        state.functions.names(),
                        frames@[k2].name@,
                    ) is Some,
            decreases frames@.len() - k,
        {
            let ghost st0 = *state;
            let ghost names_before = state.functions.names();
            let ghost graph_before = state.call_graph.edges();
            let ghost prev_child = child_idx;
            let frame = &frames[k];
            let r = attribute_one_frame(
                state,
                frame,
                caps,
                include_syscalls,
                child_idx,
                syscall_name,
            );
            proof {
                if spec_frame_parses(frames@[k as int]) {
                    assert(r is Some);
                    if k0 >= k as int {
                        assert(k0 == k as int);
                    }
                }
                assert forall|k2: int|
                    0 <= k2 < k + 1 && spec_frame_parses(#[trigger] frames@[k2])
                        implies crate::function::spec_find_name(
                    state.functions.names(),
                    frames@[k2].name@,
                ) is Some by {
                    if k2 < k {
                        crate::function::lemma_find_name_extend(
                            names_before,
                            state.functions.names(),
                            frames@[k2].name@,
                        );
                    }
                }
                assert forall|a: usize, b: usize|
                    crate::graph::spec_has_edge(graph_before, a, b)
                        implies crate::graph::spec_has_edge(
                    state.call_graph.edges(),
                    a,
                    b,
                ) by {
                    if r is Some && child_idx is Some {
                        crate::graph::lemma_add_edge_pairs(
                            graph_before,
                            r.unwrap(),
                            child_idx.unwrap(),
                            None,
                            a,
                            b,
                        );
                    }
                }
                lemma_links_step(st0, *state, frames@, k as int, last_k, child_idx, r);
                lemma_fresh_step(
                    *old(state),
                    st0,
                    *state,
                    frames@,
                    k as int,
                    k0,
                    child_idx,
                    r,
                    *caps,
                    include_syscalls,
                    syscall_name@,
                );
            }
            if let Some(idx) = r {
                child_idx = Some(idx);
                proof {
                    last_k = k as int;
                }
            }
            k += 1;
        }
        proof {
            reveal(spec_links_upto);
            reveal(spec_fresh_upto);
        }
    }
}

/// The entry record pending for `pid`, if any.
pub open spec fn spec_pending_find(pendings: Seq<(i32, Meta)>, pid: i32) -> Option<Meta>
    decreases pendings.len(),
{
    if pendings.len() == 0 {
        None
    } else if pendings[0].0 == pid {
        Some(pendings[0].1)
    } else {
        spec_pending_find(pendings.drop_first(), pid)
    }
}

/// A first match at `k` is what pending lookup finds.
proof fn lemma_pending_found(pendings: Seq<(i32, Meta)>, pid: i32, k: int)
    requires
        0 <= k < pendings.len(),
        pendings[k].0 == pid,
        forall|j: int| 0 <= j < k ==> pendings[j].0 != pid,
    ensures
        spec_pending_find(pendings, pid) == Some(pendings[k].1),
    decreases k,
{
    if k > 0 {
        assert forall|j: int| 0 <= j < k - 1 implies pendings.drop_first()[j].0 != pid by {
            assert(pendings.drop_first()[j] == pendings[j + 1]);
        }
        assert(pendings.drop_first()[k - 1] == pendings[k]);
        lemma_pending_found(pendings.drop_first(), pid, k - 1);
    }
}

/// A pid out of every record is absent.
proof fn lemma_pending_absent(pendings: Seq<(i32, Meta)>, pid: i32)
    requires
        forall|j: int| 0 <= j < pendings.len() ==> pendings[j].0 != pid,
    ensures
        spec_pending_find(pendings, pid) is None,
    decreases pendings.len(),
{
    if pendings.len() > 0 {
        assert forall|j: int|
            0 <= j < pendings.drop_first().len() implies pendings.drop_first()[j].0 != pid by {
            assert(pendings.drop_first()[j] == pendings[j + 1]);
        }
        lemma_pending_absent(pendings.drop_first(), pid);
    }
}

/// Removing another pid's record leaves a pid's lookup alone.
proof fn lemma_pending_remove_other(pendings: Seq<(i32, Meta)>, i: int, d: i32)
    requires
        0 <= i < pendings.len(),
        pendings[i].0 != d,
    ensures
        spec_pending_find(pendings.remove(i), d) == spec_pending_find(pendings, d),
    decreases pendings.len(),
{
    let n = pendings.remove(i);
    if i == 0 {
        assert(n =~= pendings.drop_first());
    } else {
        assert(n[0] == pendings[0]);
        assert(n.drop_first() =~= pendings.drop_first().remove(i - 1));
        assert(pendings.drop_first()[i - 1] == pendings[i]);
        lemma_pending_remove_other(pendings.drop_first(), i - 1, d);
    }
}

/// Folding a resolved capability set into a process state: the set grows
/// by exactly those capabilities, and everything else is untouched.
pub open spec fn spec_caps_extended(pre: State, post: State, caps: CapSet) -> bool {
    &&& (forall|c: crate::caps::Capability|
        crate::capmap::spec_set_contains(post.caps@, c) <==> (crate::capmap::spec_set_contains(
            pre.caps@,
            c,
        ) || crate::capmap::spec_set_contains(caps@, c)))
    &&& post.fds == pre.fds
    &&& post.wd == pre.wd
    &&& post.execs == pre.execs
    &&& post.pid == pre.pid
    &&& post.waiting_for_start == pre.waiting_for_start
    &&& post.functions == pre.functions
    &&& post.call_graph == pre.call_graph
}

/// The whole tracer's state: the process map, the entry-side records
/// awaiting their exits, and whether syscall names are recorded on the
/// directly attributed frames.
pub struct GlobalState {
    pub processes: ProcessMap,
    pub pending: Vec<(i32, Meta)>,
    pub include_syscalls: bool,
}

impl GlobalState {
    /// Pending entry records, one per pid.
    pub open spec fn pendings(&self) -> Seq<(i32, Meta)> {
        self.pending@
    }

    /// The process map is well formed and at most one entry record is
    /// pending per pid.
    pub open spec fn wf(&self) -> bool {
        &&& self.processes.wf()
        &&& forall|i: int, j: int|
            0 <= i < j < self.pendings().len() ==> (#[trigger] self.pendings()[i]).0 != (
            #[trigger] self.pendings()[j]).0
    }

    /// A tracer about to watch `pid`, which was started by `exec` in
    /// working directory `wd`.
    pub fn new(
        pid: i32,
        exec: Exec,
        wd: String,
        include_before_start: bool,
        include_syscalls: bool,
    ) -> (r: GlobalState)
        ensures
            r.wf(),
            r.include_syscalls == include_syscalls,
            r.processes.spec_init_pid() == pid,
            r.processes.spec_include_before_start() == include_before_start,
            r.pendings().len() == 0,
            r.processes.actives().len() == 1,
            r.processes.actives()[0].0 == pid,
            r.processes.actives()[0].1.pid == pid,
            r.processes.actives()[0].1.execs@ == seq![exec],
            r.processes.actives()[0].1.wd == wd,
            r.processes.actives()[0].1.waiting_for_start == !include_before_start,
            r.processes.actives()[0].1.fds@ == Seq::<(u64, crate::fd::Meta)>::empty(),
            r.processes.inactives().len() == 0,
    {
        GlobalState {
            processes: ProcessMap::new(pid, exec, wd, include_before_start),
            pending: Vec::new(),
            include_syscalls,
        }
    }

    /// A clone event: spawn the child off its parent. On success the child
    /// is active with the parent's non-CLOEXEC descriptors and working
    /// directory and otherwise fresh state; the error comes exactly when
    /// the parent is not active.
    pub fn handle_clone(&mut self, parent: i32, child: i32) -> (r: Result<(), Error>)
        requires
            old(self).wf(),
            !crate::process::spec_pid_has(old(self).processes.actives(), child),
        ensures
            final(self).wf(),
            final(self).include_syscalls == old(self).include_syscalls,
            final(self).processes.spec_init_pid() == old(self).processes.spec_init_pid(),
            final(self).processes.spec_include_before_start() == old(self).processes.spec_include_before_start(),
            final(self).pendings() == old(self).pendings(),
            final(self).processes.inactives() == old(self).processes.inactives(),
            match r {
                Ok(_) => {
                    &&& crate::process::spec_pid_has(final(self).processes.actives(), child)
                    &&& crate::process::spec_pid_has(old(self).processes.actives(), parent)
                },
                Err(e) => {
                    &&& !crate::process::spec_pid_has(old(self).processes.actives(), parent)
                    &&& final(self).processes.actives() == old(self).processes.actives()
                    &&& (e matches Error::ProcessFind(p) && p == parent)
                },
            },
    {
        let r = self.processes.spawn(parent, child);
        proof {
            assert forall|x: int, y: int|
                0 <= x < y < self.pendings().len() implies (#[trigger] self.pendings()[x]).0 != (
            #[trigger] self.pendings()[y]).0 by {
                assert(self.pendings()[x] == old(self).pendings()[x]);
                assert(self.pendings()[y] == old(self).pendings()[y]);
            }
        }
        r
    }

    /// An exit event: a non-init active process moves to the inactive
    /// list; the init process and unknown pids are left alone.
    pub fn handle_exit(&mut self, pid: i32)
        requires
            old(self).wf(),
        ensures
            final(self).wf(),
            final(self).include_syscalls == old(self).include_syscalls,
            final(self).processes.spec_init_pid() == old(self).processes.spec_init_pid(),
            final(self).processes.spec_include_before_start() == old(self).processes.spec_include_before_start(),
            final(self).pendings() == old(self).pendings(),
            pid == old(self).processes.spec_init_pid() || !crate::process::spec_pid_has(
                old(self).processes.actives(),
                pid,
            ) ==> final(self).processes.actives() == old(self).processes.actives() && final(self).processes.inactives() == old(self).processes.inactives(),
            pid != old(self).processes.spec_init_pid() && crate::process::spec_pid_has(
                old(self).processes.actives(),
                pid,
            ) ==> exists|i: int|
                0 <= i < old(self).processes.actives().len() && (#[trigger] old(self).processes.actives()[i]).0
                    == pid && final(self).processes.actives() =~= old(self).processes.actives().remove(i)
                    && final(self).processes.inactives() =~= old(self).processes.inactives().push(
                    old(self).processes.actives()[i],
                ),
    {
        self.processes.exit(pid);
        proof {
            assert forall|x: int, y: int|
                0 <= x < y < self.pendings().len() implies (#[trigger] self.pendings()[x]).0 != (
            #[trigger] self.pendings()[y]).0 by {
                assert(self.pendings()[x] == old(self).pendings()[x]);
                assert(self.pendings()[y] == old(self).pendings()[y]);
            }
        }
    }

    /// A syscall-entry event: classify the syscall against the process
    /// state and hold the record for the matching exit. An `FdUnknown`
    /// error asks the caller to record the descriptor (via `insert_fd`)
    /// and retry.
    pub fn handle_syscall_entry(&mut self, pid: i32, nr_name: String, args: SyscallArgs) -> (r:
        Result<(), Error>)
        requires
            old(self).wf(),
        ensures
            final(self).wf(),
            final(self).include_syscalls == old(self).include_syscalls,
            final(self).processes == old(self).processes,
            // On success, a record classified against the process's state
            // is pending for this pid.
            r is Ok ==> exists|i: int, k: int|
                {
                    &&& 0 <= i < old(self).processes.actives().len()
                    &&& (#[trigger] old(self).processes.actives()[i]).0 == pid
                    &&& 0 <= k < final(self).pendings().len()
                    &&& (#[trigger] final(self).pendings()[k]).0 == pid
                    &&& crate::syscall::spec_classified(
                        old(self).processes.actives()[i].1,
                        args,
                        nr_name@,
                        Ok(final(self).pendings()[k].1),
                    )
                },
            // A failure is an unknown pid, or the classification's own
            // error against the process's state.
            r matches Err(e) ==> (!crate::process::spec_pid_has(
                old(self).processes.actives(),
                pid,
            ) && (e matches Error::ProcessUnknown(p) && p == pid)) || exists|i: int|
                0 <= i < old(self).processes.actives().len() && (#[trigger] old(self).processes.actives()[i]).0 == pid && crate::syscall::spec_classified(
                    old(self).processes.actives()[i].1,
                    args,
                    nr_name@,
                    Err(e),
                ),
    {
        let ghost args0 = args;
        let ghost nr0 = nr_name@;
        let ghost mut st0: State;
        let meta = match self.processes.get_active(pid) {
            Some(state) => {
                proof {
                    st0 = *state;
                }
                match Meta::try_from_syscall(state, nr_name, args) {
                    Ok(meta) => meta,
                    Err(e) => {
                        return Err(e);
                    },
                }
            },
            None => {
                return Err(Error::ProcessUnknown(pid));
            },
        };
        let ghost meta0 = meta;
        let ghost i0 = choose|i: int|
            0 <= i < old(self).processes.actives().len() && (#[trigger] old(self).processes.actives()[i]).0 == pid && old(self).processes.actives()[i].1 == st0;
        let mut found: Option<usize> = None;
        let mut i: usize = 0;
        loop
            invariant
                i <= self.pending@.len(),
                *self == *old(self),
                old(self).wf(),
                match found {
                    Some(f) => f < self.pendings().len() && self.pendings()[f as int].0 == pid,
                    None => forall|j: int| 0 <= j < i ==> (#[trigger] self.pendings()[j]).0 != pid,
                },
            ensures
                match found {
                    Some(f) => f < self.pendings().len() && self.pendings()[f as int].0 == pid,
                    None => forall|j: int|
                        0 <= j < self.pendings().len() ==> (#[trigger] self.pendings()[j]).0
                            != pid,
                },
                *self == *old(self),
            decreases self.pending@.len() - i,
        {
            if i >= self.pending.len() {
                break;
            }
            if self.pending[i].0 == pid {
                found = Some(i);
                break;
            }
            i += 1;
        }
        match found {
            Some(f) => {
                self.pending[f] = (pid, meta);
                proof {
                    let n = self.pendings();
                    let o = old(self).pendings();
                    assert(n =~= o.update(f as int, (pid, meta0)));
                    assert(n[f as int].0 == pid);
                    assert(n[f as int].1 == meta0);
                    assert forall|x: int, y: int| 0 <= x < y < n.len() implies (#[trigger] n[x]).0
                        != (#[trigger] n[y]).0 by {
                        if x != f {
                            assert(n[x] == o[x]);
                        }
                        if y != f {
                            assert(n[y] == o[y]);
                        }
                    }
                    assert(crate::syscall::spec_classified(
                        old(self).processes.actives()[i0].1,
                        args0,
                        nr0,
                        Ok(n[f as int].1),
                    ));
                }
            },
            None => {
                self.pending.push((pid, meta));
                proof {
                    let n = self.pendings();
                    let o = old(self).pendings();
                    assert(n =~= o.push((pid, meta0)));
                    assert(n[n.len() - 1].0 == pid);
                    assert(n[n.len() - 1].1 == meta0);
                    assert forall|x: int, y: int| 0 <= x < y < n.len() implies (#[trigger] n[x]).0
                        != (#[trigger] n[y]).0 by {
                        if y < n.len() - 1 {
                            assert(n[x] == o[x]);
                            assert(n[y] == o[y]);
                        } else {
                            assert(n[x] == o[x]);
                            assert(o[x].0 != pid);
                        }
                    }
                    assert(crate::syscall::spec_classified(
                        old(self).processes.actives()[i0].1,
                        args0,
                        nr0,
                        Ok(n[n.len() - 1].1),
                    ));
                }
            },
        }
        Ok(())
    }

    /// Record an inferred descriptor on an active process, after an
    /// `FdUnknown` error: the descriptor is entered on exactly that
    /// process and nothing else changes; the error comes exactly when the
    /// pid is not active.
    pub fn insert_fd(&mut self, pid: i32, fd: u64, meta: crate::fd::Meta) -> (r: Result<(), Error>)
        requires
            old(self).wf(),
        ensures
            final(self).wf(),
            final(self).include_syscalls == old(self).include_syscalls,
            final(self).pendings() == old(self).pendings(),
            final(self).processes.spec_init_pid() == old(self).processes.spec_init_pid(),
            final(self).processes.spec_include_before_start() == old(self).processes.spec_include_before_start(),
            final(self).processes.inactives() == old(self).processes.inactives(),
            match r {
                Ok(_) => {
                    &&& crate::process::spec_active_state(old(self).processes.actives(), pid) is Some
                    &&& crate::process::spec_active_state(final(self).processes.actives(), pid) matches Some(s2)
                        && ({
                        let s0 = crate::process::spec_active_state(
                            old(self).processes.actives(),
                            pid,
                        ).unwrap();
                        &&& crate::fd::spec_fd_lookup(s2.fds@, fd) == Some(meta)
                        &&& (forall|d: u64|
                            d != fd ==> crate::fd::spec_fd_lookup(s2.fds@, d)
                                == crate::fd::spec_fd_lookup(s0.fds@, d))
                        &&& s2.wd == s0.wd
                        &&& s2.execs == s0.execs
                        &&& s2.caps == s0.caps
                        &&& s2.pid == s0.pid
                        &&& s2.waiting_for_start == s0.waiting_for_start
                        &&& s2.functions == s0.functions
                        &&& s2.call_graph == s0.call_graph
                    })
                    &&& (forall|d: i32|
                        d != pid ==> crate::process::spec_active_state(final(self).processes.actives(), d)
                            == crate::process::spec_active_state(old(self).processes.actives(), d))
                },
                Err(e) => {
                    &&& crate::process::spec_active_state(old(self).processes.actives(), pid) is None
                    &&& final(self).processes.actives() == old(self).processes.actives()
                    &&& (e matches Error::ProcessUnknown(p) && p == pid)
                },
            },
    {
        let r = match self.processes.take_active(pid) {
            Some(mut state) => {
                state.insert_fd(fd, meta);
                self.processes.put_active(pid, state);
                Ok(())
            },
            None => Err(Error::ProcessUnknown(pid)),
        };
        proof {
            assert forall|x: int, y: int|
                0 <= x < y < self.pendings().len() implies (#[trigger] self.pendings()[x]).0 != (
            #[trigger] self.pendings()[y]).0 by {
                assert(self.pendings()[x] == old(self).pendings()[x]);
                assert(self.pendings()[y] == old(self).pendings()[y]);
            }
        }
        r
    }

    /// A successful syscall-exit event: take the pending entry record,
    /// resolve it to capabilities (mutating the process state), fold them
    /// into the process-level set, and attribute them to the observed
    /// stack frames. An `FdUnknown` error from resolution asks the caller
    /// to record the descriptor and retry with it as `inferred`.
    /// A successful syscall-exit event: take the pending entry record,
    /// resolve it to capabilities exactly as `spec_resolved` describes
    /// (mutating the process state), fold them into the process-level set,
    /// and attribute them to the observed stack frames per
    /// `spec_attributed`. The errors come exactly from their causes: no
    /// entry record pending, an unknown pid, or resolution's own failure
    /// (in which case the record is still consumed and the mutated state
    /// kept). An `FdUnknown` error from resolution asks the caller to
    /// record the descriptor and retry with it as `inferred`.
    pub fn handle_syscall_exit(
        &mut self,
        pid: i32,
        sval: i64,
        frames: &Vec<Frame>,
        table: &CapabilityMap,
        inferred: Option<crate::fd::Meta>,
    ) -> (r: Result<(), Error>)
        requires
            old(self).wf(),
            table.wf(),
            sval >= 0,
        ensures
            final(self).wf(),
            final(self).include_syscalls == old(self).include_syscalls,
            final(self).processes.spec_init_pid() == old(self).processes.spec_init_pid(),
            final(self).processes.spec_include_before_start() == old(self).processes.spec_include_before_start(),
            final(self).processes.inactives() == old(self).processes.inactives(),
            forall|d: i32|
                d != pid ==> spec_pending_find(final(self).pendings(), d) == spec_pending_find(
                    old(self).pendings(),
                    d,
                ),
            forall|d: i32|
                d != pid ==> crate::process::spec_active_state(final(self).processes.actives(), d)
                    == crate::process::spec_active_state(old(self).processes.actives(), d),
            match r {
                Ok(_) => {
                    &&& spec_pending_find(old(self).pendings(), pid) is Some
                    &&& crate::process::spec_active_state(old(self).processes.actives(), pid) is Some
                    &&& spec_pending_find(final(self).pendings(), pid) is None
                    &&& crate::process::spec_active_state(final(self).processes.actives(), pid) is Some
                    &&& exists|s1: State, s2: State, caps: CapSet|
                        {
                            &&& crate::syscall::spec_resolved(
                                spec_pending_find(old(self).pendings(), pid).unwrap(),
                                crate::process::spec_active_state(
                                    old(self).processes.actives(),
                                    pid,
                                ).unwrap(),
                                s1,
                                sval,
                                table.records(),
                                inferred,
                                Ok(caps),
                            )
                            &&& #[trigger] spec_caps_extended(s1, s2, caps)
                            &&& spec_attributed(
                                s2,
                                crate::process::spec_active_state(
                                    final(self).processes.actives(),
                                    pid,
                                ).unwrap(),
                                frames@,
                                caps,
                                old(self).include_syscalls,
                                spec_pending_find(old(self).pendings(), pid).unwrap().nr_name@,
                            )
                        }
                },
                Err(e) => {
                    ||| {
                        &&& spec_pending_find(old(self).pendings(), pid) is None
                        &&& (e matches Error::SyscallMetaMissing)
                        &&& final(self).pendings() == old(self).pendings()
                        &&& final(self).processes.actives() == old(self).processes.actives()
                    }
                    ||| {
                        &&& spec_pending_find(old(self).pendings(), pid) is Some
                        &&& crate::process::spec_active_state(old(self).processes.actives(), pid) is None
                        &&& (e matches Error::ProcessUnknown(p) && p == pid)
                        &&& spec_pending_find(final(self).pendings(), pid) is None
                        &&& final(self).processes.actives() == old(self).processes.actives()
                    }
                    ||| {
                        &&& spec_pending_find(old(self).pendings(), pid) is Some
                        &&& crate::process::spec_active_state(old(self).processes.actives(), pid) is Some
                        &&& spec_pending_find(final(self).pendings(), pid) is None
                        &&& exists|s1: State|
                            #[trigger] crate::syscall::spec_resolved(
                                spec_pending_find(old(self).pendings(), pid).unwrap(),
                                crate::process::spec_active_state(
                                    old(self).processes.actives(),
                                    pid,
                                ).unwrap(),
                                s1,
                                sval,
                                table.records(),
                                inferred,
                                Err(e),
                            ) && crate::process::spec_active_state(
                                final(self).processes.actives(),
                                pid,
                            ) == Some(s1)
                    }
                },
            },
    {
        let meta = match self.take_pending(pid) {
            Some(meta) => meta,
            None => {
                return Err(Error::SyscallMetaMissing);
            },
        };
        let ghost meta0 = meta;
        let ghost pend1 = self.pendings();
        let ghost before = *self;
        let mut state = match self.processes.take_active(pid) {
            Some(state) => state,
            None => {
                proof {
                    assert forall|x: int, y: int|
                        0 <= x < y < self.pendings().len() implies (
                    #[trigger] self.pendings()[x]).0 != (#[trigger] self.pendings()[y]).0 by {
                        assert(self.pendings()[x] == pend1[x]);
                        assert(self.pendings()[y] == pend1[y]);
                    }
                }
                return Err(Error::ProcessUnknown(pid));
            },
        };
        let ghost st0 = state;
        let nr_name = String::from_str(meta.nr_name.as_str());
        let caps = match meta.into_capabilities(&mut state, sval, table, inferred) {
            Ok(caps) => caps,
            Err(e) => {
                let ghost s1e = state;
                self.processes.put_active(pid, state);
                proof {
                    assert forall|x: int, y: int|
                        0 <= x < y < self.pendings().len() implies (
                    #[trigger] self.pendings()[x]).0 != (#[trigger] self.pendings()[y]).0 by {
                        assert(self.pendings()[x] == pend1[x]);
                        assert(self.pendings()[y] == pend1[y]);
                    }
                    assert(crate::syscall::spec_resolved(
                        spec_pending_find(old(self).pendings(), pid).unwrap(),
                        crate::process::spec_active_state(
                            old(self).processes.actives(),
                            pid,
                        ).unwrap(),
                        s1e,
                        sval,
                        table.records(),
                        inferred,
                        Err(e),
                    ));
                    assert(crate::process::spec_active_state(
                        self.processes.actives(),
                        pid,
                    ) == Some(s1e));
                }
                return Err(e);
            },
        };
        let ghost st1 = state;
        state.extend_caps(&caps);
        let ghost st2 = state;
        attribute_frames(&mut state, frames, &caps, self.include_syscalls, nr_name.as_str());
        self.processes.put_active(pid, state);
        proof {
            assert forall|x: int, y: int|
                0 <= x < y < self.pendings().len() implies (#[trigger] self.pendings()[x]).0 != (
            #[trigger] self.pendings()[y]).0 by {
                assert(self.pendings()[x] == pend1[x]);
                assert(self.pendings()[y] == pend1[y]);
            }
            assert(spec_pending_find(old(self).pendings(), pid) == Some(meta0));
            assert(crate::process::spec_active_state(old(self).processes.actives(), pid)
                == Some(st0));
            assert(crate::syscall::spec_resolved(
                meta0,
                st0,
                st1,
                sval,
                table.records(),
                inferred,
                Ok(caps),
            ));
            assert(spec_caps_extended(st1, st2, caps));
            assert(spec_attributed(
                st2,
                state,
                frames@,
                caps,
                old(self).include_syscalls,
                meta0.nr_name@,
            ));
            assert(crate::process::spec_active_state(self.processes.actives(), pid)
                == Some(state));
            assert(crate::syscall::spec_resolved(
                spec_pending_find(old(self).pendings(), pid).unwrap(),
                crate::process::spec_active_state(old(self).processes.actives(), pid).unwrap(),
                st1,
                sval,
                table.records(),
                inferred,
                Ok(caps),
            ));
            assert(spec_attributed(
                st2,
                crate::process::spec_active_state(self.processes.actives(), pid).unwrap(),
                frames@,
                caps,
                old(self).include_syscalls,
                spec_pending_find(old(self).pendings(), pid).unwrap().nr_name@,
            ));
        }
        Ok(())
    }

    /// Remove and return the pending entry record for `pid`, if any.
    fn take_pending(&mut self, pid: i32) -> (r: Option<Meta>)
        requires
            old(self).wf(),
        ensures
            final(self).wf(),
            final(self).processes == old(self).processes,
            final(self).include_syscalls == old(self).include_syscalls,
            match r {
                Some(m) => {
                    &&& spec_pending_find(old(self).pendings(), pid) == Some(m)
                    &&& spec_pending_find(final(self).pendings(), pid) is None
                    &&& forall|d: i32|
                        d != pid ==> spec_pending_find(final(self).pendings(), d)
                            == spec_pending_find(old(self).pendings(), d)
                },
                None => {
                    &&& spec_pending_find(old(self).pendings(), pid) is None
                    &&& final(self).pendings() == old(self).pendings()
                },
            },
    {
        let mut found: Option<usize> = None;
        let mut i: usize = 0;
        loop
            invariant
                i <= self.pending@.len(),
                *self == *old(self),
                old(self).wf(),
                match found {
                    Some(f) => f < self.pendings().len() && self.pendings()[f as int].0 == pid
                        && forall|j: int| 0 <= j < f ==> (#[trigger] self.pendings()[j]).0 != pid,
                    None => forall|j: int| 0 <= j < i ==> (#[trigger] self.pendings()[j]).0 != pid,
                },
            ensures
                *self == *old(self),
                match found {
                    Some(f) => f < self.pendings().len() && self.pendings()[f as int].0 == pid
                        && forall|j: int| 0 <= j < f ==> (#[trigger] self.pendings()[j]).0 != pid,
                    None => forall|j: int|
                        0 <= j < self.pendings().len() ==> (#[trigger] self.pendings()[j]).0
                            != pid,
                },
            decreases self.pending@.len() - i,
        {
            if i >= self.pending.len() {
                break;
            }
            if self.pending[i].0 == pid {
                found = Some(i);
                break;
            }
            i += 1;
        }
        match found {
            Some(f) => {
                let entry = self.pending.remove(f);
                proof {
                    let o = old(self).pendings();
                    let n = self.pendings();
                    assert(n =~= o.remove(f as int));
                    assert(o[f as int] == (pid, entry.1));
                    lemma_pending_found(o, pid, f as int);
                    assert forall|j: int| 0 <= j < n.len() implies (#[trigger] n[j]).0 != pid by {
                        if j < f {
                            assert(n[j] == o[j]);
                        } else {
                            assert(n[j] == o[j + 1]);
                            assert(o[f as int].0 != o[j + 1].0);
                        }
                    }
                    lemma_pending_absent(n, pid);
                    assert forall|d: i32| d != pid implies spec_pending_find(n, d)
                        == spec_pending_find(o, d) by {
                        lemma_pending_remove_other(o, f as int, d);
                    }
                    assert forall|x: int, y: int| 0 <= x < y < n.len() implies (#[trigger] n[x]).0
                        != (#[trigger] n[y]).0 by {
                        let ox = if x < f {
                            x
                        } else {
                            x + 1
                        };
                        let oy = if y < f {
                            y
                        } else {
                            y + 1
                        };
                        assert(n[x] == o[ox]);
                        assert(n[y] == o[oy]);
                    }
                }
                Some(entry.1)
            },
            None => {
                proof {
                    lemma_pending_absent(self.pendings(), pid);
                }
                None
            },
        }
    }

    /// Assemble the final report: the init process's state is the root,
    /// and the remaining processes, active then exited, are its children
    /// when requested.
    pub fn into_report(self, include_children: bool) -> (r: Result<Report, Error>)
        requires
            self.wf(),
        ensures
            match r {
                Ok(rep) => {
                    &&& crate::process::spec_pid_has(
                        self.processes.actives(),
                        self.processes.spec_init_pid(),
                    )
                    &&& exists|i: int|
                        0 <= i < self.processes.actives().len()
                            && (#[trigger] self.processes.actives()[i]).0
                            == self.processes.spec_init_pid() && crate::process::spec_is_process_of(
                            self.processes.actives()[i].1,
                            rep.process,
                        ) && (include_children ==> {
                            let rest = self.processes.actives().remove(i)
                                + self.processes.inactives();
                            &&& rep.children@.len() == rest.len()
                            &&& forall|k: int|
                                0 <= k < rest.len() ==> crate::process::spec_is_process_of(
                                    rest[k].1,
                                    #[trigger] rep.children@[k],
                                )
                        })
                    &&& (!include_children ==> rep.children@.len() == 0)
                },
                Err(e) => !crate::process::spec_pid_has(
                    self.processes.actives(),
                    self.processes.spec_init_pid(),
                ) && (e matches Error::ChildMissing(p) && p == self.processes.spec_init_pid()),
            },
    {
        self.processes.into_report(include_children)
    }
}

} // verus!
