//! Rendering sorted groups to output text: one comma-separated,
//! newline-terminated line per record, and the per-identifier file name.

use vstd::prelude::*;

use crate::aggregate::Group;
use crate::datetime::fmt_dt;
use crate::datetime::fmt_datetime;
use crate::digits::dec_str;
use crate::digits::fmt_uint;
use crate::digits::is_digit;
use crate::digits::lemma_dec_str_digits;
use crate::digits::lemma_dec_str_value;
use crate::digits::uint_value;
use crate::record::PointV;

verus! {

/// The output line of one record: identifier, canonical time, latitude,
/// longitude; comma separated, newline terminated.
pub open spec fn render_point(p: PointV) -> Seq<char> {
    dec_str(p.id as nat) + seq![','] + fmt_dt(p.time) + seq![','] + p.lat + seq![','] + p.lng
        + seq!['\n']
}

/// The output text of a whole group: its records' lines in order.
pub open spec fn render_recs(rs: Seq<PointV>) -> Seq<char>
    decreases rs.len(),
{
    if rs.len() == 0 {
        Seq::empty()
    } else {
        render_recs(rs.drop_last()) + render_point(rs.last())
    }
}

/// Render one group's records, in their current order.
pub fn render_group(g: &Group) -> (r: String)
    requires
        g@.wf(),
    ensures
        r@ == render_recs(g@.recs),
{
    let mut out = String::new();
    let ghost dv = g@.recs;
    proof {
        assert(dv.take(0) =~= Seq::<PointV>::empty());
        assert(out@ =~= render_recs(dv.take(0)));
    }
    let n = g.recs.len();
    let mut i: usize = 0;
    while i < n
        invariant
            i <= n,
            n == g.recs.len(),
            dv == g@.recs,
            g@.wf(),
            out@ == render_recs(dv.take(i as int)),
        decreases n - i,
    {
        let p = &g.recs[i];
        proof {
            assert(p@ == dv[i as int]);
            assert(p@.wf());
        }
        out.append(fmt_uint(p.id).as_str());
        out.append(",");
        out.append(fmt_datetime(&p.time).as_str());
        out.append(",");
        out.append(p.lat.as_str());
        out.append(",");
        out.append(p.lng.as_str());
        out.append("\n");
        proof {
            reveal_strlit(",");
            reveal_strlit("\n");
            assert(dv.take(i + 1).drop_last() =~= dv.take(i as int));
            assert(dv.take(i + 1).last() == dv[i as int]);
            assert(out@ =~= render_recs(dv.take(i + 1)));
        }
        i = i + 1;
    }
    proof {
        assert(dv.take(n as int) =~= dv);
    }
    out
}

/// The name of the output file a group is written to.
pub fn output_file_name(id: usize) -> (r: String)
    ensures
        r@ == dec_str(id as nat) + ".txt"@,
{
    let mut s = fmt_uint(id);
    s.append(".txt");
    s
}

/// Distinct identifiers get distinct output file names.
pub proof fn lemma_file_names_distinct(a: nat, b: nat)
    requires
        a != b,
    ensures
        dec_str(a) + ".txt"@ != dec_str(b) + ".txt"@,
{
    lemma_dec_str_value(a);
    lemma_dec_str_value(b);
    if dec_str(a) + ".txt"@ == dec_str(b) + ".txt"@ {
        assert((dec_str(a) + ".txt"@).len() == (dec_str(b) + ".txt"@).len());
        assert(dec_str(a).len() == dec_str(b).len());
        assert(dec_str(a) =~= dec_str(b)) by {
            assert(forall|i: int|
                0 <= i < dec_str(a).len() ==> (dec_str(a) + ".txt"@)[i] == dec_str(a)[i]
                    && (dec_str(b) + ".txt"@)[i] == #[trigger] dec_str(b)[i]);
        }
        assert(uint_value(dec_str(a)) == uint_value(dec_str(b)));
        assert(false);
    }
}

/// How many newline characters `s` holds.
pub open spec fn count_newlines(s: Seq<char>) -> int
    decreases s.len(),
{
    if s.len() == 0 {
        0
    } else {
        count_newlines(s.drop_last()) + (if s.last() == '\n' {
            1int
        } else {
            0int
        })
    }
}

/// Text without newlines, as a coordinate field of a well-formed input line is.
pub open spec fn newline_free(s: Seq<char>) -> bool {
    forall|i: int| 0 <= i < s.len() ==> s[i] != '\n'
}

pub proof fn lemma_count_newlines_concat(a: Seq<char>, b: Seq<char>)
    ensures
        count_newlines(a + b) == count_newlines(a) + count_newlines(b),
    decreases b.len(),
{
    if b.len() == 0 {
        assert(a + b =~= a);
    } else {
        lemma_count_newlines_concat(a, b.drop_last());
        assert((a + b).drop_last() =~= a + b.drop_last());
        assert((a + b).last() == b.last());
    }
}

pub proof fn lemma_count_newlines_free(s: Seq<char>)
    requires
        newline_free(s),
    ensures
        count_newlines(s) == 0,
    decreases s.len(),
{
    if s.len() > 0 {
        assert(newline_free(s.drop_last()));
        lemma_count_newlines_free(s.drop_last());
    }
}

/// One record renders to exactly one line, as long as its coordinate fields
/// hold no newline of their own.
pub proof fn lemma_render_point_one_line(p: PointV)
    requires
        p.id >= 0,
        newline_free(p.lat),
        newline_free(p.lng),
    ensures
        count_newlines(render_point(p)) == 1,
{
    let ids = dec_str(p.id as nat);
    lemma_dec_str_digits(p.id as nat);
    assert(newline_free(ids)) by {
        assert(forall|i: int| 0 <= i < ids.len() ==> is_digit(#[trigger] ids[i]));
    }
    lemma_count_newlines_free(ids);
    assert(newline_free(fmt_dt(p.time)));
    lemma_count_newlines_free(fmt_dt(p.time));
    lemma_count_newlines_free(p.lat);
    lemma_count_newlines_free(p.lng);
    let comma = seq![','];
    let nl = seq!['\n'];
    assert(count_newlines(Seq::<char>::empty()) == 0);
    assert(count_newlines(comma) == 0) by {
        assert(count_newlines(Seq::<char>::empty()) == 0);
        assert(comma.drop_last() =~= Seq::<char>::empty());
    }
    assert(count_newlines(nl) == 1) by {
        assert(count_newlines(Seq::<char>::empty()) == 0);
        assert(nl.drop_last() =~= Seq::<char>::empty());
    }
    lemma_count_newlines_concat(ids, comma);
    lemma_count_newlines_concat(ids + comma, fmt_dt(p.time));
    lemma_count_newlines_concat(ids + comma + fmt_dt(p.time), comma);
    lemma_count_newlines_concat(ids + comma + fmt_dt(p.time) + comma, p.lat);
    lemma_count_newlines_concat(ids + comma + fmt_dt(p.time) + comma + p.lat, comma);
    lemma_count_newlines_concat(ids + comma + fmt_dt(p.time) + comma + p.lat + comma, p.lng);
    lemma_count_newlines_concat(
        ids + comma + fmt_dt(p.time) + comma + p.lat + comma + p.lng,
        nl,
    );
}

/// A rendered group holds exactly one line per record: the line count of the
/// output file equals the number of records collected for its identifier.
pub proof fn lemma_render_line_count(rs: Seq<PointV>)
    requires
        forall|i: int| 0 <= i < rs.len() ==> (#[trigger] rs[i]).id >= 0,
        forall|i: int| 0 <= i < rs.len() ==> newline_free((#[trigger] rs[i]).lat),
        forall|i: int| 0 <= i < rs.len() ==> newline_free((#[trigger] rs[i]).lng),
    ensures
        count_newlines(render_recs(rs)) == rs.len(),
    decreases rs.len(),
{
    if rs.len() > 0 {
        lemma_render_line_count(rs.drop_last());
        lemma_render_point_one_line(rs.last());
        lemma_count_newlines_concat(render_recs(rs.drop_last()), render_point(rs.last()));
    }
}

} // verus!
