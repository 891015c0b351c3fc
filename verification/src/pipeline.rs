//! The compute side of the pipeline: turning a file's lines into accepted
//! records. Scanning directories, reading files and writing output are the
//! callers' I/O; every decision about the data is made and proved here.

use vstd::prelude::*;

use crate::record::LineError;
use crate::record::LineOutcome;
use crate::record::Point;
use crate::record::PointV;
use crate::record::line_outcome;
use crate::record::parse_line;

verus! {

/// The records the accepted lines of a file contribute, in line order.
pub open spec fn accepted_points(lines: Seq<Seq<char>>) -> Seq<PointV>
    decreases lines.len(),
{
    if lines.len() == 0 {
        Seq::empty()
    } else {
        let rest = accepted_points(lines.drop_last());
        match line_outcome(lines.last()) {
            LineOutcome::Accept(p) => rest.push(p),
            _ => rest,
        }
    }
}

/// The earliest hard error among `lines`, if any.
pub open spec fn first_fail(lines: Seq<Seq<char>>) -> Option<LineError>
    decreases lines.len(),
{
    if lines.len() == 0 {
        None
    } else {
        match first_fail(lines.drop_last()) {
            Some(e) => Some(e),
            None => match line_outcome(lines.last()) {
                LineOutcome::Fail(e) => Some(e),
                _ => None,
            },
        }
    }
}

/// A failing line after a clean prefix is the earliest hard error.
pub proof fn lemma_first_fail_at(lines: Seq<Seq<char>>, k: int, e: LineError)
    requires
        0 <= k < lines.len(),
        first_fail(lines.take(k)) is None,
        line_outcome(lines[k]) == LineOutcome::Fail(e),
    ensures
        first_fail(lines) == Some(e),
    decreases lines.len(),
{
    if k == lines.len() - 1 {
        assert(lines.drop_last() =~= lines.take(k));
    } else {
        assert(lines.drop_last().take(k) =~= lines.take(k));
        assert(lines.drop_last()[k] == lines[k]);
        lemma_first_fail_at(lines.drop_last(), k, e);
    }
}

/// Parse a whole file's lines: every accepted record in line order, or the
/// file's earliest hard error. Rejected lines are skipped silently.
pub fn parse_file_lines(lines: &Vec<String>) -> (r: Result<Vec<Point>, LineError>)
    ensures
        match r {
            Ok(ps) => {
                &&& first_fail(lines.deep_view()) is None
                &&& ps.deep_view() == accepted_points(lines.deep_view())
                &&& forall|i: int| 0 <= i < ps.len() ==> (#[trigger] ps[i]).wf()
            },
            Err(e) => first_fail(lines.deep_view()) == Some(e),
        },
{
    let ghost lv = lines.deep_view();
    let mut out: Vec<Point> = Vec::new();
    let mut i: usize = 0;
    let n = lines.len();
    proof {
        assert(lv.take(0) =~= Seq::<Seq<char>>::empty());
        assert(out.deep_view() =~= accepted_points(lv.take(0)));
    }
    while i < n
        invariant
            i <= n,
            n == lines.len(),
            lv == lines.deep_view(),
            first_fail(lv.take(i as int)) is None,
            out.deep_view() == accepted_points(lv.take(i as int)),
            forall|k: int| 0 <= k < out.len() ==> (#[trigger] out[k]).wf(),
        decreases n - i,
    {
        let ghost pre = lv.take(i as int);
        let ghost pre1 = lv.take(i + 1);
        proof {
            assert(pre1.drop_last() =~= pre);
            assert(pre1.last() == lv[i as int]);
            assert(lines[i as int]@ == lv[i as int]);
        }
        match parse_line(lines[i].as_str()) {
            Ok(Some(p)) => {
                let ghost odv = out.deep_view();
                proof {
                    assert(line_outcome(lv[i as int]) == LineOutcome::Accept(p@));
                }
                out.push(p);
                proof {
                    assert(out.deep_view() =~= odv.push(p@));
                    assert(out.deep_view() =~= accepted_points(pre1));
                }
            },
            Ok(None) => {
                proof {
                    assert(accepted_points(pre1) =~= accepted_points(pre));
                }
            },
            Err(e) => {
                proof {
                    lemma_first_fail_at(lv, i as int, e);
                }
                return Err(e);
            },
        }
        i = i + 1;
    }
    proof {
        assert(lv.take(n as int) =~= lv);
    }
    Ok(out)
}

} // verus!
