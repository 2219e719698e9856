//! The native contact set: which residue pairs count as contacts, their
//! native distances and their cluster memberships.

use crate::errors::AnalysisError;
use crate::geometry::DISTANCE_LIMIT;
use crate::text::{parse_i32_bytes, parse_milli_range, spec_parse_i32, spec_parse_milli};
use vstd::prelude::*;

verus! {

/// One native contact between residues `i` and `j`, with its native
/// distance `r` in milli-units and the id of the structural cluster it
/// belongs to (cluster `0` is the reserved background cluster).
#[derive(Clone, Copy, Debug, PartialEq, Eq, Structural)]
pub struct Contact {
    pub i: i32,
    pub j: i32,
    /// Native distance in milli-units (`5.0` is stored as `5000`).
    pub r: u64,
    pub cluster: i32,
}

impl Contact {
    /// The native distance is within the accepted range.
    pub open spec fn wf(self) -> bool {
        self.r <= DISTANCE_LIMIT
    }
}

/// Every contact of the native set is well-formed.
pub open spec fn contacts_wf(s: Seq<Contact>) -> bool {
    forall|k: int| 0 <= k < s.len() ==> (#[trigger] s[k]).wf()
}

/// The first column at or after `j` whose label is exactly `label`.
pub open spec fn spec_col_from(h: Seq<Seq<u8>>, label: Seq<u8>, j: int) -> Option<int>
    decreases h.len() - j,
{
    if j < 0 || j >= h.len() {
        None
    } else if h[j] == label {
        Some(j)
    } else {
        spec_col_from(h, label, j + 1)
    }
}

/// One tabular row read as a contact, given the four column positions.
/// The native distance must be a non-negative decimal within range.
pub open spec fn spec_parse_contact_row(
    row: Seq<Seq<u8>>,
    ci: Option<int>,
    cj: Option<int>,
    cr: Option<int>,
    cc: Option<int>,
) -> Option<Contact> {
    match (ci, cj, cr, cc) {
        (Some(pi), Some(pj), Some(pr), Some(pc)) => {
            if pi < 0 || pi >= row.len() || pj < 0 || pj >= row.len() || pr < 0 || pr >= row.len()
                || pc < 0 || pc >= row.len() {
                None
            } else {
                match (
                    spec_parse_i32(row[pi]),
                    spec_parse_i32(row[pj]),
                    spec_parse_milli(row[pr], DISTANCE_LIMIT),
                    spec_parse_i32(row[pc]),
                ) {
                    (Some(i), Some(j), Some(r), Some(cluster)) => if r >= 0 {
                        Some(Contact { i, j, r: r as u64, cluster })
                    } else {
                        None
                    },
                    _ => None,
                }
            }
        },
        _ => None,
    }
}

/// The contact rows from `k` on.
pub open spec fn spec_parse_contacts_data(
    rows: Seq<Seq<Seq<u8>>>,
    k: int,
    ci: Option<int>,
    cj: Option<int>,
    cr: Option<int>,
    cc: Option<int>,
) -> Option<Seq<Contact>>
    decreases rows.len() - k,
{
    if k < 0 || k >= rows.len() {
        Some(Seq::empty())
    } else {
        match spec_parse_contact_row(rows[k], ci, cj, cr, cc) {
            None => None,
            Some(c) => match spec_parse_contacts_data(rows, k + 1, ci, cj, cr, cc) {
                None => None,
                Some(rest) => Some(seq![c] + rest),
            },
        }
    }
}

/// A whole contacts table read back: columns `i`, `j`, `r` and `cluster`
/// found by name in the header, one contact per data row.
pub open spec fn spec_parse_contacts(rows: Seq<Seq<Seq<u8>>>) -> Option<Seq<Contact>> {
    if rows.len() == 0 {
        Some(Seq::empty())
    } else {
        spec_parse_contacts_data(
            rows,
            1,
            spec_col_from(rows[0], seq![105u8], 0),
            spec_col_from(rows[0], seq![106u8], 0),
            spec_col_from(rows[0], seq![114u8], 0),
            spec_col_from(rows[0], seq![99u8, 108u8, 117u8, 115u8, 116u8, 101u8, 114u8], 0),
        )
    }
}

/// Finds the first column equal to a one-byte label.
fn find_col1(header: &Vec<Vec<u8>>, b: u8) -> (r: Option<usize>)
    ensures
        ({
            let hv = header@.map(|a: int, f: Vec<u8>| f@);
            match r {
                Some(p) => p < header@.len() && spec_col_from(hv, seq![b], 0) == Some(p as int),
                None => spec_col_from(hv, seq![b], 0) is None,
            }
        }),
{
    let ghost hv = header@.map(|a: int, f: Vec<u8>| f@);
    let n = header.len();
    let mut j: usize = 0;
    while j < n
        invariant
            j <= n,
            n == header@.len(),
            hv == header@.map(|a: int, f: Vec<u8>| f@),
            spec_col_from(hv, seq![b], 0) == spec_col_from(hv, seq![b], j as int),
        decreases n - j,
    {
        let col = &header[j];
        proof {
            assert(hv[j as int] == col@);
        }
        if col.len() == 1 && col[0] == b {
            proof {
                assert(hv[j as int] =~= seq![b]);
            }
            return Some(j);
        }
        proof {
            assert(hv[j as int] != seq![b]) by {
                if hv[j as int] == seq![b] {
                    assert(col@.len() == 1);
                    assert(col@[0] == b);
                }
            }
        }
        j = j + 1;
    }
    None
}

/// Finds the first column labelled `cluster`.
fn find_col_cluster(header: &Vec<Vec<u8>>) -> (r: Option<usize>)
    ensures
        ({
            let hv = header@.map(|a: int, f: Vec<u8>| f@);
            let label = seq![99u8, 108u8, 117u8, 115u8, 116u8, 101u8, 114u8];
            match r {
                Some(p) => p < header@.len() && spec_col_from(hv, label, 0) == Some(p as int),
                None => spec_col_from(hv, label, 0) is None,
            }
        }),
{
    let ghost hv = header@.map(|a: int, f: Vec<u8>| f@);
    let ghost label = seq![99u8, 108u8, 117u8, 115u8, 116u8, 101u8, 114u8];
    let n = header.len();
    let mut j: usize = 0;
    while j < n
        invariant
            j <= n,
            n == header@.len(),
            hv == header@.map(|a: int, f: Vec<u8>| f@),
            label == seq![99u8, 108u8, 117u8, 115u8, 116u8, 101u8, 114u8],
            spec_col_from(hv, label, 0) == spec_col_from(hv, label, j as int),
        decreases n - j,
    {
        let col = &header[j];
        proof {
            assert(hv[j as int] == col@);
        }
        if col.len() == 7 && col[0] == 99 && col[1] == 108 && col[2] == 117 && col[3] == 115
            && col[4] == 116 && col[5] == 101 && col[6] == 114 {
            proof {
                assert(hv[j as int] =~= label);
            }
            return Some(j);
        }
        proof {
            assert(hv[j as int] != label) by {
                if hv[j as int] == label {
                    assert(col@.len() == 7);
                    assert(col@[0] == 99);
                    assert(col@[1] == 108);
                    assert(col@[2] == 117);
                    assert(col@[3] == 115);
                    assert(col@[4] == 116);
                    assert(col@[5] == 101);
                    assert(col@[6] == 114);
                }
            }
        }
        j = j + 1;
    }
    None
}

/// Reads the native contact set from tabular rows: columns `i`, `j`, `r`
/// (a decimal native distance, stored in milli-units) and `cluster`,
/// found by name in the header row.  Fails with a format error exactly
/// when some data row cannot be read that way.
pub fn load_contacts_from_csv(rows: &Vec<Vec<Vec<u8>>>) -> (r: Result<Vec<Contact>, AnalysisError>)
    ensures
        match r {
            Ok(out) => spec_parse_contacts(crate::codec::spec_rows_view(rows@)) == Some(out@)
                && contacts_wf(out@),
            Err(e) => e == AnalysisError::FormatError && spec_parse_contacts(
                crate::codec::spec_rows_view(rows@),
            ) is None,
        },
{
    let ghost dv = crate::codec::spec_rows_view(rows@);
    let n = rows.len();
    let mut out: Vec<Contact> = Vec::new();
    if n == 0 {
        return Ok(out);
    }
    let header = &rows[0];
    proof {
        assert(dv[0] == header@.map(|a: int, f: Vec<u8>| f@));
    }
    let ci = find_col1(header, 105);
    let cj = find_col1(header, 106);
    let cr = find_col1(header, 114);
    let cc = find_col_cluster(header);
    let ghost sci = match ci {
        Some(p) => Some(p as int),
        None => None::<int>,
    };
    let ghost scj = match cj {
        Some(p) => Some(p as int),
        None => None::<int>,
    };
    let ghost scr = match cr {
        Some(p) => Some(p as int),
        None => None::<int>,
    };
    let ghost scc = match cc {
        Some(p) => Some(p as int),
        None => None::<int>,
    };
    proof {
        assert(sci == spec_col_from(dv[0], seq![105u8], 0));
        assert(scj == spec_col_from(dv[0], seq![106u8], 0));
        assert(scr == spec_col_from(dv[0], seq![114u8], 0));
        assert(scc == spec_col_from(
            dv[0],
            seq![99u8, 108u8, 117u8, 115u8, 116u8, 101u8, 114u8],
            0,
        ));
    }
    let mut k: usize = 1;
    while k < n
        invariant
            1 <= k <= n,
            n == rows@.len(),
            dv == crate::codec::spec_rows_view(rows@),
            sci == spec_col_from(dv[0], seq![105u8], 0),
            scj == spec_col_from(dv[0], seq![106u8], 0),
            scr == spec_col_from(dv[0], seq![114u8], 0),
            scc == spec_col_from(dv[0], seq![99u8, 108u8, 117u8, 115u8, 116u8, 101u8, 114u8], 0),
            sci == (match ci {
                Some(p) => Some(p as int),
                None => None::<int>,
            }),
            scj == (match cj {
                Some(p) => Some(p as int),
                None => None::<int>,
            }),
            scr == (match cr {
                Some(p) => Some(p as int),
                None => None::<int>,
            }),
            scc == (match cc {
                Some(p) => Some(p as int),
                None => None::<int>,
            }),
            out@.len() == k - 1,
            contacts_wf(out@),
            spec_parse_contacts_data(dv, 1, sci, scj, scr, scc) == match spec_parse_contacts_data(
                dv,
                k as int,
                sci,
                scj,
                scr,
                scc,
            ) {
                None => None::<Seq<Contact>>,
                Some(rest) => Some(out@ + rest),
            },
        decreases n - k,
    {
        let row = &rows[k];
        proof {
            assert(dv[k as int] == row@.map(|a: int, f: Vec<u8>| f@));
        }
        let (pi, pj, pr, pc) = match (ci, cj, cr, cc) {
            (Some(a), Some(b), Some(c2), Some(d)) => (a, b, c2, d),
            _ => {
                return Err(AnalysisError::FormatError);
            },
        };
        if pi >= row.len() || pj >= row.len() || pr >= row.len() || pc >= row.len() {
            return Err(AnalysisError::FormatError);
        }
        proof {
            assert(dv[k as int][pi as int] == row@[pi as int]@);
            assert(dv[k as int][pj as int] == row@[pj as int]@);
            assert(dv[k as int][pr as int] == row@[pr as int]@);
            assert(dv[k as int][pc as int] == row@[pc as int]@);
        }
        let vi = match parse_i32_bytes(&row[pi]) {
            Some(v) => v,
            None => {
                return Err(AnalysisError::FormatError);
            },
        };
        let vj = match parse_i32_bytes(&row[pj]) {
            Some(v) => v,
            None => {
                return Err(AnalysisError::FormatError);
            },
        };
        let rl = row[pr].len();
        let vr = match parse_milli_range(&row[pr], 0, rl, DISTANCE_LIMIT) {
            Some(v) => v,
            None => {
                proof {
                    assert(row@[pr as int]@.subrange(0, row@[pr as int]@.len() as int) =~= row@[
                    pr as int]@);
                }
                return Err(AnalysisError::FormatError);
            },
        };
        proof {
            assert(row@[pr as int]@.subrange(0, row@[pr as int]@.len() as int) =~= row@[pr as int]@);
        }
        if vr < 0 {
            return Err(AnalysisError::FormatError);
        }
        let vc = match parse_i32_bytes(&row[pc]) {
            Some(v) => v,
            None => {
                return Err(AnalysisError::FormatError);
            },
        };
        let ct = Contact { i: vi, j: vj, r: vr as u64, cluster: vc };
        out.push(ct);
        proof {
            assert(spec_parse_contact_row(dv[k as int], sci, scj, scr, scc) == Some(ct));
            if spec_parse_contacts_data(dv, k as int + 1, sci, scj, scr, scc) is Some {
                let rest2 = spec_parse_contacts_data(dv, k as int + 1, sci, scj, scr, scc)->Some_0;
                assert(out@.drop_last() + (seq![ct] + rest2) =~= out@ + rest2);
            }
        }
        k = k + 1;
    }
    proof {
        assert(out@ + Seq::<Contact>::empty() =~= out@);
    }
    Ok(out)
}

} // verus!
