//! The trajectory parser and the parsed trajectory table.
//!
//! The input is a sequence of text lines.  A `MODEL` line opens a frame
//! (its second whitespace-separated token is the frame id; a missing or
//! non-numeric id is fatal), `ATOM` lines whose atom-name field equals
//! `CA` contribute one residue coordinate read from fixed columns
//! (malformed or short atom lines are skipped silently), and `ENDMDL`
//! closes the frame.  A trailing unclosed frame is committed at end of
//! input, even when empty; a file without any `MODEL` marker becomes one
//! implicit frame with id one.  When
//! `max_frames` is given, parsing stops as soon as that many frames are
//! retained, checked both when a frame opens and when one closes.

use crate::errors::AnalysisError;
use crate::geometry::{frame_data_wf, Coordinate, FrameData, COORD_LIMIT};
use crate::pairmap::{map_insert, pairs_sorted, spec_insert};
use crate::text::{
    parse_i32_range, parse_milli_range, skip_tok, skip_ws, spec_parse_i32, spec_parse_milli,
    spec_skip_tok, spec_skip_ws, spec_trim_end, trim_range,
};
use vstd::prelude::*;

verus! {

/// Frame id to frame table, keys strictly sorted.  A duplicate frame id
/// in the input silently overwrites the earlier data, as a map insert
/// would.
pub type TrajectoryData = Vec<(i32, FrameData)>;

/// Frame ids strictly sorted and every frame table well-formed.
pub open spec fn trajectory_wf(t: Seq<(i32, FrameData)>) -> bool {
    pairs_sorted(t) && forall|k: int| 0 <= k < t.len() ==> frame_data_wf(((#[trigger] t[k]).1)@)
}

/// The lines as byte sequences.
pub open spec fn spec_lines_view(s: Seq<Vec<u8>>) -> Seq<Seq<u8>> {
    s.map(|i: int, l: Vec<u8>| l@)
}

/// The trajectory table as nested sequences.
pub open spec fn spec_traj_view(t: Seq<(i32, FrameData)>) -> Seq<(i32, Seq<(i32, Coordinate)>)> {
    t.map(|i: int, p: (i32, FrameData)| (p.0, p.1@))
}

/// The parser's state between lines.
pub ghost struct PState {
    /// Frames committed so far, keyed by frame id.
    pub frames: Seq<(i32, Seq<(i32, Coordinate)>)>,
    /// The id of the currently open frame, if one is open.
    pub current: Option<i32>,
    /// Coordinates accumulated for the open frame.
    pub acc: Seq<(i32, Coordinate)>,
    /// Whether any MODEL marker has been seen.
    pub model_found: bool,
    /// Whether the open frame was already committed by an ENDMDL.
    pub model_saved: bool,
    /// Whether the frame limit was reached and parsing has stopped.
    pub done: bool,
}

/// The state before any line is read.
pub open spec fn spec_init_state() -> PState {
    PState {
        frames: Seq::empty(),
        current: None,
        acc: Seq::empty(),
        model_found: false,
        model_saved: false,
        done: false,
    }
}

/// `MODEL` at the start of the line.
pub open spec fn spec_is_model(l: Seq<u8>) -> bool {
    l.len() >= 5 && l[0] == 77 && l[1] == 79 && l[2] == 68 && l[3] == 69 && l[4] == 76
}

/// `ENDMDL` at the start of the line.
pub open spec fn spec_is_endmdl(l: Seq<u8>) -> bool {
    l.len() >= 6 && l[0] == 69 && l[1] == 78 && l[2] == 68 && l[3] == 77 && l[4] == 68 && l[5]
        == 76
}

/// `ATOM` at the start of the line.
pub open spec fn spec_is_atom(l: Seq<u8>) -> bool {
    l.len() >= 4 && l[0] == 65 && l[1] == 84 && l[2] == 79 && l[3] == 77
}

/// The line names an alpha carbon: the atom-name field, columns
/// `[12, 16)`, holds exactly the blank-padded name ` CA `.
pub open spec fn spec_has_ca(l: Seq<u8>) -> bool {
    l.len() >= 16 && l[12] == 32 && l[13] == 67 && l[14] == 65 && l[15] == 32
}

/// The frame id of a MODEL line: its second whitespace-separated token,
/// read as an integer.
pub open spec fn spec_model_id(l: Seq<u8>) -> Option<i32> {
    let n = l.len() as int;
    let s1 = spec_skip_ws(l, 0, n);
    let e1 = spec_skip_tok(l, s1, n);
    let s2 = spec_skip_ws(l, e1, n);
    let e2 = spec_skip_tok(l, s2, n);
    if s2 >= n {
        None
    } else {
        spec_parse_i32(l.subrange(s2, e2))
    }
}

/// One field of an ATOM line, whitespace-trimmed, parsed as an integer.
pub open spec fn spec_field_i32(l: Seq<u8>, s: int, e: int) -> Option<i32> {
    let ts = spec_skip_ws(l, s, e);
    let te = spec_trim_end(l, ts, e);
    spec_parse_i32(l.subrange(ts, te))
}

/// One field of an ATOM line, whitespace-trimmed, parsed as a
/// fixed-point coordinate in milli-units.
pub open spec fn spec_field_coord(l: Seq<u8>, s: int, e: int) -> Option<i64> {
    let ts = spec_skip_ws(l, s, e);
    let te = spec_trim_end(l, ts, e);
    spec_parse_milli(l.subrange(ts, te), COORD_LIMIT as u64)
}

/// What an ATOM line contributes: residue id from columns `[22, 26)`,
/// coordinates from `[30, 38)`, `[38, 46)` and `[46, 54)`; any field that
/// does not parse leaves the accumulator unchanged.
pub open spec fn spec_atom_insert(acc: Seq<(i32, Coordinate)>, l: Seq<u8>) -> Seq<
    (i32, Coordinate),
> {
    match spec_field_i32(l, 22, 26) {
        None => acc,
        Some(res) => match (
            spec_field_coord(l, 30, 38),
            spec_field_coord(l, 38, 46),
            spec_field_coord(l, 46, 54),
        ) {
            (Some(x), Some(y), Some(z)) => spec_insert(acc, res, Coordinate { x, y, z }),
            _ => acc,
        },
    }
}

/// Commits the open frame unless it was already saved.
pub open spec fn spec_commit(
    frames: Seq<(i32, Seq<(i32, Coordinate)>)>,
    current: Option<i32>,
    saved: bool,
    acc: Seq<(i32, Coordinate)>,
) -> Seq<(i32, Seq<(i32, Coordinate)>)> {
    match current {
        Some(m) => if !saved {
            spec_insert(frames, m, acc)
        } else {
            frames
        },
        None => frames,
    }
}

/// Whether the retained frame count has reached the limit.
pub open spec fn spec_at_limit(nframes: nat, max: Option<usize>) -> bool {
    match max {
        Some(mx) => nframes >= mx,
        None => false,
    }
}

/// One line of the parser's state machine.  A malformed MODEL header is
/// the one fatal condition.
pub open spec fn spec_step(st: PState, l: Seq<u8>, max: Option<usize>) -> Result<PState, ()> {
    if st.done {
        Ok(st)
    } else if spec_is_model(l) {
        let frames1 = spec_commit(st.frames, st.current, st.model_saved, st.acc);
        if spec_at_limit(frames1.len(), max) {
            Ok(
                PState {
                    frames: frames1,
                    current: None,
                    acc: Seq::empty(),
                    model_found: true,
                    model_saved: st.model_saved,
                    done: true,
                },
            )
        } else {
            match spec_model_id(l) {
                None => Err(()),
                Some(id) => Ok(
                    PState {
                        frames: frames1,
                        current: Some(id),
                        acc: Seq::empty(),
                        model_found: true,
                        model_saved: false,
                        done: false,
                    },
                ),
            }
        }
    } else if spec_is_atom(l) && spec_has_ca(l) {
        if l.len() < 54 {
            Ok(st)
        } else {
            Ok(
                PState {
                    frames: st.frames,
                    current: st.current,
                    acc: spec_atom_insert(st.acc, l),
                    model_found: st.model_found,
                    model_saved: st.model_saved,
                    done: st.done,
                },
            )
        }
    } else if spec_is_endmdl(l) {
        let commit = st.current is Some && !st.model_saved;
        let frames1 = spec_commit(st.frames, st.current, st.model_saved, st.acc);
        Ok(
            PState {
                frames: frames1,
                current: st.current,
                acc: if commit {
                    Seq::empty()
                } else {
                    st.acc
                },
                model_found: st.model_found,
                model_saved: if commit {
                    true
                } else {
                    st.model_saved
                },
                done: spec_at_limit(frames1.len(), max),
            },
        )
    } else {
        Ok(st)
    }
}

/// The state machine folded over all lines.
pub open spec fn spec_parse_fold(lines: Seq<Seq<u8>>, max: Option<usize>) -> Result<PState, ()>
    decreases lines.len(),
{
    if lines.len() == 0 {
        Ok(spec_init_state())
    } else {
        match spec_parse_fold(lines.drop_last(), max) {
            Err(()) => Err(()),
            Ok(st) => spec_step(st, lines.last(), max),
        }
    }
}

/// End of input: a dangling uncommitted frame is committed from the
/// accumulated buffer, and a file without any MODEL marker becomes one
/// implicit frame with id one — both unconditionally (an empty frame is
/// committed like any other), and both only while the frame limit is not
/// yet reached.
pub open spec fn spec_finalize(st: PState, max: Option<usize>) -> Seq<
    (i32, Seq<(i32, Coordinate)>),
> {
    let under = match max {
        None => true,
        Some(mx) => st.frames.len() < mx,
    };
    if under {
        let f1 = match st.current {
            Some(m) => if !st.model_saved {
                spec_insert(st.frames, m, st.acc)
            } else {
                st.frames
            },
            None => st.frames,
        };
        if !st.model_found {
            spec_insert(f1, 1, st.acc)
        } else {
            f1
        }
    } else {
        st.frames
    }
}

/// What parsing a whole trajectory yields.
pub open spec fn spec_parse_trajectory(lines: Seq<Seq<u8>>, max: Option<usize>) -> Result<
    Seq<(i32, Seq<(i32, Coordinate)>)>,
    (),
> {
    match spec_parse_fold(lines, max) {
        Err(()) => Err(()),
        Ok(st) => Ok(spec_finalize(st, max)),
    }
}

/// A fold that has failed stays failed whatever lines follow.
proof fn lemma_fold_err_stable(lines: Seq<Seq<u8>>, max: Option<usize>, j: int)
    requires
        0 <= j <= lines.len(),
        spec_parse_fold(lines.take(j), max) is Err,
    ensures
        spec_parse_fold(lines, max) is Err,
    decreases lines.len() - j,
{
    if j == lines.len() {
        assert(lines.take(j) =~= lines);
    } else {
        assert(lines.take(j + 1).drop_last() =~= lines.take(j));
        lemma_fold_err_stable(lines, max, j + 1);
    }
}

/// Inserting at the table level and at the view level agree.
proof fn lemma_view_insert(t: Seq<(i32, FrameData)>, k: i32, v: FrameData)
    ensures
        spec_traj_view(spec_insert(t, k, v)) == spec_insert(spec_traj_view(t), k, v@),
    decreases t.len(),
{
    let lhs = spec_traj_view(spec_insert(t, k, v));
    let rhs = spec_insert(spec_traj_view(t), k, v@);
    let tv = spec_traj_view(t);
    assert(tv.len() == t.len());
    if t.len() == 0 {
        assert(lhs =~= rhs);
    } else {
        assert(tv[0] == (t[0].0, t[0].1@));
        if k < t[0].0 {
            assert(spec_insert(t, k, v) == seq![(k, v)] + t);
            assert(rhs == seq![(k, v@)] + tv);
            assert(lhs =~= rhs);
        } else if k == t[0].0 {
            assert(spec_insert(t, k, v) == seq![(k, v)] + t.skip(1));
            assert(rhs == seq![(k, v@)] + tv.skip(1));
            assert(lhs =~= rhs);
        } else {
            lemma_view_insert(t.skip(1), k, v);
            assert(spec_insert(t, k, v) == seq![t[0]] + spec_insert(t.skip(1), k, v));
            assert(rhs == seq![tv[0]] + spec_insert(tv.skip(1), k, v@));
            assert(spec_traj_view(t.skip(1)) =~= tv.skip(1));
            assert(lhs =~= rhs);
        }
    }
}

/// Whether the line starts with `MODEL`.
fn is_model_line(l: &Vec<u8>) -> (r: bool)
    ensures
        r == spec_is_model(l@),
{
    l.len() >= 5 && l[0] == 77 && l[1] == 79 && l[2] == 68 && l[3] == 69 && l[4] == 76
}

/// Whether the line starts with `ENDMDL`.
fn is_endmdl_line(l: &Vec<u8>) -> (r: bool)
    ensures
        r == spec_is_endmdl(l@),
{
    l.len() >= 6 && l[0] == 69 && l[1] == 78 && l[2] == 68 && l[3] == 77 && l[4] == 68 && l[5]
        == 76
}

/// Whether the line starts with `ATOM`.
fn is_atom_line(l: &Vec<u8>) -> (r: bool)
    ensures
        r == spec_is_atom(l@),
{
    l.len() >= 4 && l[0] == 65 && l[1] == 84 && l[2] == 79 && l[3] == 77
}

/// Whether the line's atom-name field holds ` CA `.
fn has_ca(l: &Vec<u8>) -> (r: bool)
    ensures
        r == spec_has_ca(l@),
{
    l.len() >= 16 && l[12] == 32 && l[13] == 67 && l[14] == 65 && l[15] == 32
}

/// Reads a trajectory from its text lines.
///
/// Exactly the reference state machine: frames keyed by MODEL id (later
/// duplicates overwrite), Cα coordinates from fixed columns with
/// malformed atom lines skipped, a fatal format error only for a MODEL
/// header whose id is missing or unreadable, and at most `max_frames`
/// frames retained.
pub fn parse_trajectory(lines: &Vec<Vec<u8>>, max_frames: Option<usize>) -> (r: Result<
    TrajectoryData,
    AnalysisError,
>)
    ensures
        match r {
            Ok(t) => spec_parse_trajectory(spec_lines_view(lines@), max_frames) == Ok::<
                Seq<(i32, Seq<(i32, Coordinate)>)>,
                (),
            >(spec_traj_view(t@)) && trajectory_wf(t@),
            Err(e) => e == AnalysisError::FormatError && spec_parse_trajectory(
                spec_lines_view(lines@),
                max_frames,
            ) is Err,
        },
{
    let ghost ls = spec_lines_view(lines@);
    let mut frames: TrajectoryData = Vec::new();
    let mut current: Option<i32> = None;
    let mut acc: FrameData = Vec::new();
    let mut model_found = false;
    let mut model_saved = false;
    let mut done = false;
    let n = lines.len();
    let mut i: usize = 0;
    proof {
        assert(ls.take(0) =~= Seq::<Seq<u8>>::empty());
        assert(spec_traj_view(frames@) =~= Seq::<(i32, Seq<(i32, Coordinate)>)>::empty());
    }
    while i < n
        invariant
            i <= n,
            n == lines@.len(),
            ls == spec_lines_view(lines@),
            spec_parse_fold(ls.take(i as int), max_frames) == Ok::<PState, ()>(
                (PState {
                    frames: spec_traj_view(frames@),
                    current,
                    acc: acc@,
                    model_found,
                    model_saved,
                    done,
                }),
            ),
            trajectory_wf(frames@),
            frame_data_wf(acc@),
            current is Some ==> model_found,
        decreases n - i,
    {
        let ghost st0 = PState {
            frames: spec_traj_view(frames@),
            current,
            acc: acc@,
            model_found,
            model_saved,
            done,
        };
        proof {
            assert(ls.take(i as int + 1).drop_last() =~= ls.take(i as int));
            assert(ls.take(i as int + 1).last() == ls[i as int]);
            assert(ls[i as int] == lines@[i as int]@);
        }
        let line = &lines[i];
        if done {
            // the frame limit was reached: remaining lines are ignored
        } else if is_model_line(line) {
            // commit the previous frame unless already saved, then start anew
            match current {
                Some(m) => {
                    if !model_saved {
                        let a = acc;
                        acc = Vec::new();
                        proof {
                            lemma_view_insert(frames@, m, a);
                            crate::pairmap::lemma_map_insert_values(
                                frames@,
                                m,
                                a,
                                |fd: FrameData| frame_data_wf(fd@),
                            );
                        }
                        map_insert(&mut frames, m, a);
                    } else {
                        acc = Vec::new();
                    }
                },
                None => {
                    acc = Vec::new();
                },
            }
            current = None;
            model_found = true;
            let at_limit = match max_frames {
                Some(mx) => frames.len() >= mx,
                None => false,
            };
            if at_limit {
                done = true;
            } else {
                let llen = line.len();
                let s1 = skip_ws(line, 0, llen);
                let e1 = skip_tok(line, s1, llen);
                let s2 = skip_ws(line, e1, llen);
                let e2 = skip_tok(line, s2, llen);
                if s2 >= llen {
                    proof {
                        lemma_fold_err_stable(ls, max_frames, i as int + 1);
                    }
                    return Err(AnalysisError::FormatError);
                }
                match parse_i32_range(line, s2, e2) {
                    None => {
                        proof {
                            lemma_fold_err_stable(ls, max_frames, i as int + 1);
                        }
                        return Err(AnalysisError::FormatError);
                    },
                    Some(id) => {
                        current = Some(id);
                        model_saved = false;
                    },
                }
            }
        } else if is_atom_line(line) && has_ca(line) {
            // a Cα record: read residue id and coordinates from fixed columns
            if line.len() >= 54 {
                let (rs, re) = trim_range(line, 22, 26);
                match parse_i32_range(line, rs, re) {
                    None => {},
                    Some(res) => {
                        let (xs, xe) = trim_range(line, 30, 38);
                        let (ys, ye) = trim_range(line, 38, 46);
                        let (zs, ze) = trim_range(line, 46, 54);
                        let x = parse_milli_range(line, xs, xe, 100_000_000_000);
                        let y = parse_milli_range(line, ys, ye, 100_000_000_000);
                        let z = parse_milli_range(line, zs, ze, 100_000_000_000);
                        match (x, y, z) {
                            (Some(xv), Some(yv), Some(zv)) => {
                                let c = Coordinate::new(xv, yv, zv);
                                proof {
                                    crate::pairmap::lemma_map_insert_values(
                                        acc@,
                                        res,
                                        c,
                                        |cc: Coordinate| cc.wf(),
                                    );
                                }
                                map_insert(&mut acc, res, c);
                            },
                            _ => {},
                        }
                    },
                }
            }
        } else if is_endmdl_line(line) {
            // close the frame and check the limit
            match current {
                Some(m) => {
                    if !model_saved {
                        let a = acc;
                        acc = Vec::new();
                        proof {
                            lemma_view_insert(frames@, m, a);
                            crate::pairmap::lemma_map_insert_values(
                                frames@,
                                m,
                                a,
                                |fd: FrameData| frame_data_wf(fd@),
                            );
                        }
                        map_insert(&mut frames, m, a);
                        model_saved = true;
                    }
                },
                None => {},
            }
            let at_limit = match max_frames {
                Some(mx) => frames.len() >= mx,
                None => false,
            };
            if at_limit {
                done = true;
            }
        } else {
            // any other line is ignored
        }
        proof {
            let st1 = PState {
                frames: spec_traj_view(frames@),
                current,
                acc: acc@,
                model_found,
                model_saved,
                done,
            };
            assert(spec_step(st0, ls[i as int], max_frames) == Ok::<PState, ()>(st1));
        }
        i = i + 1;
    }
    proof {
        assert(ls.take(n as int) =~= ls);
    }
    let ghost st_end = PState {
        frames: spec_traj_view(frames@),
        current,
        acc: acc@,
        model_found,
        model_saved,
        done,
    };
    // end of input: commit a dangling frame, or the whole file as frame 1
    let under = match max_frames {
        Some(mx) => frames.len() < mx,
        None => true,
    };
    let ghost f1 = match st_end.current {
        Some(m) => if !st_end.model_saved {
            spec_insert(st_end.frames, m, st_end.acc)
        } else {
            st_end.frames
        },
        None => st_end.frames,
    };
    if under {
        match current {
            Some(m) => {
                if !model_saved {
                    let a = acc;
                    acc = Vec::new();
                    proof {
                        lemma_view_insert(frames@, m, a);
                        crate::pairmap::lemma_map_insert_values(
                            frames@,
                            m,
                            a,
                            |fd: FrameData| frame_data_wf(fd@),
                        );
                    }
                    map_insert(&mut frames, m, a);
                }
            },
            None => {},
        }
        proof {
            assert(spec_traj_view(frames@) == f1);
        }
        if !model_found {
            let a = acc;
            proof {
                lemma_view_insert(frames@, 1, a);
                crate::pairmap::lemma_map_insert_values(
                    frames@,
                    1,
                    a,
                    |fd: FrameData| frame_data_wf(fd@),
                );
            }
            map_insert(&mut frames, 1, a);
            proof {
                assert(spec_traj_view(frames@) == spec_insert(f1, 1, st_end.acc));
            }
        }
    }
    proof {
        assert(spec_finalize(st_end, max_frames) == spec_traj_view(frames@));
    }
    Ok(frames)
}

/// A handle naming the trajectory file a caller wants analysed.  The
/// handle only carries the path; reading the file is the caller's
/// business, and the analysis stages take in-memory values.
pub struct PdbTrajectory {
    file_path: String,
}

impl PdbTrajectory {
    /// The path the handle was created with.
    pub closed spec fn spec_path(self) -> Seq<char> {
        self.file_path@
    }

    pub fn new(file_path: &str) -> (r: PdbTrajectory)
        ensures
            r.spec_path() == file_path@,
    {
        PdbTrajectory { file_path: file_path.to_owned() }
    }

    /// Reads the stored path back.
    pub fn path(&self) -> (r: &str)
        ensures
            r@ == self.spec_path(),
    {
        self.file_path.as_str()
    }
}

} // verus!
