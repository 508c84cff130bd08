//! Stop record parsing: delimited text to normalized records.
//!
//! A feed's `stops.txt` member is delimited text with a header row.
//! Fields are matched to schema columns by header name, not position;
//! surrounding ASCII whitespace in a field is trimmed before conversion.
//! A schema column absent from the header, or blank in a row, yields the
//! optional field's absent state.  The required columns (`stop_id`,
//! `stop_name`, `stop_lat`, `stop_lon`) must be present, and the
//! coordinates numeric, or the row fails and aborts the whole feed.
//! Rows whose width differs from the header's fail likewise; blank lines
//! are skipped.
//!
//! The text grammar: fields are separated by commas and records by line
//! feeds (a carriage return before a line feed, or alone, also ends a
//! record).  A field that starts with a double quote runs to the closing
//! quote and may contain separators; a doubled quote inside it stands for
//! one quote character.

use vstd::prelude::*;
use crate::stop::StopData;
use crate::stop::StopRecord;
use crate::stop::opt_bytes;
use crate::stop::stops_view;
use crate::fixed::spec_parse_coord;
use crate::fixed::spec_parse_count;
use crate::fixed::parse_coord;
use crate::fixed::parse_count;

verus! {

/// The name of schema column `c`, in the order of the stored record.
pub open spec fn col_name(c: int) -> Seq<u8> {
    if c == 0 {
        seq![115u8, 116u8, 111u8, 112u8, 95u8, 105u8, 100u8]
    } else if c == 1 {
        seq![115u8, 116u8, 111u8, 112u8, 95u8, 99u8, 111u8, 100u8, 101u8]
    } else if c == 2 {
        seq![115u8, 116u8, 111u8, 112u8, 95u8, 110u8, 97u8, 109u8, 101u8]
    } else if c == 3 {
        seq![116u8, 116u8, 115u8, 95u8, 115u8, 116u8, 111u8, 112u8, 95u8, 110u8, 97u8, 109u8, 101u8]
    } else if c == 4 {
        seq![115u8, 116u8, 111u8, 112u8, 95u8, 100u8, 101u8, 115u8, 99u8]
    } else if c == 5 {
        seq![115u8, 116u8, 111u8, 112u8, 95u8, 108u8, 97u8, 116u8]
    } else if c == 6 {
        seq![115u8, 116u8, 111u8, 112u8, 95u8, 108u8, 111u8, 110u8]
    } else if c == 7 {
        seq![122u8, 111u8, 110u8, 101u8, 95u8, 105u8, 100u8]
    } else if c == 8 {
        seq![115u8, 116u8, 111u8, 112u8, 95u8, 117u8, 114u8, 108u8]
    } else if c == 9 {
        seq![108u8, 111u8, 99u8, 97u8, 116u8, 105u8, 111u8, 110u8, 95u8, 116u8, 121u8, 112u8, 101u8]
    } else if c == 10 {
        seq![112u8, 97u8, 114u8, 101u8, 110u8, 116u8, 95u8, 115u8, 116u8, 97u8, 116u8, 105u8, 111u8, 110u8]
    } else if c == 11 {
        seq![115u8, 116u8, 111u8, 112u8, 95u8, 116u8, 105u8, 109u8, 101u8, 122u8, 111u8, 110u8, 101u8]
    } else if c == 12 {
        seq![119u8, 104u8, 101u8, 101u8, 108u8, 99u8, 104u8, 97u8, 105u8, 114u8, 95u8, 98u8, 111u8, 97u8, 114u8, 100u8, 105u8, 110u8, 103u8]
    } else if c == 13 {
        seq![108u8, 101u8, 118u8, 101u8, 108u8, 95u8, 105u8, 100u8]
    } else if c == 14 {
        seq![112u8, 108u8, 97u8, 116u8, 102u8, 111u8, 114u8, 109u8, 95u8, 99u8, 111u8, 100u8, 101u8]
    } else {
        Seq::empty()
    }
}

/// Build the name of schema column `c`.
pub fn col_name_exec(c: usize) -> (r: Vec<u8>)
    requires
        c < 15,
    ensures
        r@ == col_name(c as int),
{
    let mut v: Vec<u8> = Vec::new();
    if c == 0 {
        v.push(115);
        v.push(116);
        v.push(111);
        v.push(112);
        v.push(95);
        v.push(105);
        v.push(100);
    } else    if c == 1 {
        v.push(115);
        v.push(116);
        v.push(111);
        v.push(112);
        v.push(95);
        v.push(99);
        v.push(111);
        v.push(100);
        v.push(101);
    } else    if c == 2 {
        v.push(115);
        v.push(116);
        v.push(111);
        v.push(112);
        v.push(95);
        v.push(110);
        v.push(97);
        v.push(109);
        v.push(101);
    } else    if c == 3 {
        v.push(116);
        v.push(116);
        v.push(115);
        v.push(95);
        v.push(115);
        v.push(116);
        v.push(111);
        v.push(112);
        v.push(95);
        v.push(110);
        v.push(97);
        v.push(109);
        v.push(101);
    } else    if c == 4 {
        v.push(115);
        v.push(116);
        v.push(111);
        v.push(112);
        v.push(95);
        v.push(100);
        v.push(101);
        v.push(115);
        v.push(99);
    } else    if c == 5 {
        v.push(115);
        v.push(116);
        v.push(111);
        v.push(112);
        v.push(95);
        v.push(108);
        v.push(97);
        v.push(116);
    } else    if c == 6 {
        v.push(115);
        v.push(116);
        v.push(111);
        v.push(112);
        v.push(95);
        v.push(108);
        v.push(111);
        v.push(110);
    } else    if c == 7 {
        v.push(122);
        v.push(111);
        v.push(110);
        v.push(101);
        v.push(95);
        v.push(105);
        v.push(100);
    } else    if c == 8 {
        v.push(115);
        v.push(116);
        v.push(111);
        v.push(112);
        v.push(95);
        v.push(117);
        v.push(114);
        v.push(108);
    } else    if c == 9 {
        v.push(108);
        v.push(111);
        v.push(99);
        v.push(97);
        v.push(116);
        v.push(105);
        v.push(111);
        v.push(110);
        v.push(95);
        v.push(116);
        v.push(121);
        v.push(112);
        v.push(101);
    } else    if c == 10 {
        v.push(112);
        v.push(97);
        v.push(114);
        v.push(101);
        v.push(110);
        v.push(116);
        v.push(95);
        v.push(115);
        v.push(116);
        v.push(97);
        v.push(116);
        v.push(105);
        v.push(111);
        v.push(110);
    } else    if c == 11 {
        v.push(115);
        v.push(116);
        v.push(111);
        v.push(112);
        v.push(95);
        v.push(116);
        v.push(105);
        v.push(109);
        v.push(101);
        v.push(122);
        v.push(111);
        v.push(110);
        v.push(101);
    } else    if c == 12 {
        v.push(119);
        v.push(104);
        v.push(101);
        v.push(101);
        v.push(108);
        v.push(99);
        v.push(104);
        v.push(97);
        v.push(105);
        v.push(114);
        v.push(95);
        v.push(98);
        v.push(111);
        v.push(97);
        v.push(114);
        v.push(100);
        v.push(105);
        v.push(110);
        v.push(103);
    } else    if c == 13 {
        v.push(108);
        v.push(101);
        v.push(118);
        v.push(101);
        v.push(108);
        v.push(95);
        v.push(105);
        v.push(100);
    } else    if c == 14 {
        v.push(112);
        v.push(108);
        v.push(97);
        v.push(116);
        v.push(102);
        v.push(111);
        v.push(114);
        v.push(109);
        v.push(95);
        v.push(99);
        v.push(111);
        v.push(100);
        v.push(101);
    } else {
    }
    proof {
        assert(v@ =~= col_name(c as int));
    }
    v
}

} // verus!

verus! {

/// Tokenizer mode between two input bytes.
#[derive(Clone, Copy, PartialEq, Eq, Structural, Debug)]
pub enum ScanMode {
    /// At the start of a field (and possibly of a record).
    FieldStart,
    /// Inside an unquoted field.
    Unquoted,
    /// Inside a quoted field.
    Quoted,
    /// Just after a quote inside a quoted field.
    QuoteClosed,
    /// Just after a carriage return that ended a record.
    AfterCr,
}

/// Tokenizer state: finished records, the open record, the open field.
pub struct ScanState {
    pub recs: Seq<Seq<Seq<u8>>>,
    pub rec: Seq<Seq<u8>>,
    pub field: Seq<u8>,
    pub mode: ScanMode,
}

/// The state before any input.
pub open spec fn init_state() -> ScanState {
    ScanState { recs: Seq::empty(), rec: Seq::empty(), field: Seq::empty(), mode: ScanMode::FieldStart }
}

/// One step at the start of a field.
pub open spec fn step_start(st: ScanState, b: u8) -> ScanState {
    if b == 0x22 {
        ScanState { mode: ScanMode::Quoted, ..st }
    } else if b == 0x2c {
        ScanState { rec: st.rec.push(st.field), field: Seq::empty(), mode: ScanMode::FieldStart, ..st }
    } else if b == 0x0a || b == 0x0d {
        let mode = if b == 0x0d {
            ScanMode::AfterCr
        } else {
            ScanMode::FieldStart
        };
        if st.rec.len() == 0 {
            ScanState { mode, ..st }
        } else {
            ScanState {
                recs: st.recs.push(st.rec.push(st.field)),
                rec: Seq::empty(),
                field: Seq::empty(),
                mode,
            }
        }
    } else {
        ScanState { field: st.field.push(b), mode: ScanMode::Unquoted, ..st }
    }
}

/// One tokenizer step.
pub open spec fn csv_step(st: ScanState, b: u8) -> ScanState {
    match st.mode {
        ScanMode::AfterCr => {
            if b == 0x0a {
                ScanState { mode: ScanMode::FieldStart, ..st }
            } else {
                step_start(ScanState { mode: ScanMode::FieldStart, ..st }, b)
            }
        },
        ScanMode::FieldStart => step_start(st, b),
        ScanMode::Unquoted => {
            if b == 0x2c {
                ScanState { rec: st.rec.push(st.field), field: Seq::empty(), mode: ScanMode::FieldStart, ..st }
            } else if b == 0x0a || b == 0x0d {
                ScanState {
                    recs: st.recs.push(st.rec.push(st.field)),
                    rec: Seq::empty(),
                    field: Seq::empty(),
                    mode: if b == 0x0d {
                        ScanMode::AfterCr
                    } else {
                        ScanMode::FieldStart
                    },
                }
            } else {
                ScanState { field: st.field.push(b), ..st }
            }
        },
        ScanMode::Quoted => {
            if b == 0x22 {
                ScanState { mode: ScanMode::QuoteClosed, ..st }
            } else {
                ScanState { field: st.field.push(b), ..st }
            }
        },
        ScanMode::QuoteClosed => {
            if b == 0x22 {
                ScanState { field: st.field.push(0x22), mode: ScanMode::Quoted, ..st }
            } else if b == 0x2c {
                ScanState { rec: st.rec.push(st.field), field: Seq::empty(), mode: ScanMode::FieldStart, ..st }
            } else if b == 0x0a || b == 0x0d {
                ScanState {
                    recs: st.recs.push(st.rec.push(st.field)),
                    rec: Seq::empty(),
                    field: Seq::empty(),
                    mode: if b == 0x0d {
                        ScanMode::AfterCr
                    } else {
                        ScanMode::FieldStart
                    },
                }
            } else {
                ScanState { field: st.field.push(b), mode: ScanMode::Unquoted, ..st }
            }
        },
    }
}

/// Run the tokenizer over the input from position `i`.
pub open spec fn csv_scan(s: Seq<u8>, i: int, st: ScanState) -> ScanState
    decreases s.len() - i,
        when 0 <= i <= s.len()
{
    if i == s.len() {
        st
    } else {
        csv_scan(s, i + 1, csv_step(st, s[i]))
    }
}

/// Close the open record at end of input; an untouched record (after a
/// trailing line end, or empty input) adds nothing.
pub open spec fn csv_finish(st: ScanState) -> Seq<Seq<Seq<u8>>> {
    match st.mode {
        ScanMode::FieldStart | ScanMode::AfterCr => {
            if st.rec.len() == 0 && st.field.len() == 0 {
                st.recs
            } else {
                st.recs.push(st.rec.push(st.field))
            }
        },
        _ => st.recs.push(st.rec.push(st.field)),
    }
}

/// The records of a delimited-text input, as lists of raw fields.
pub open spec fn csv_rows(s: Seq<u8>) -> Seq<Seq<Seq<u8>>> {
    csv_finish(csv_scan(s, 0, init_state()))
}

/// The byte views of one record's fields.
pub open spec fn fields_view(r: Seq<Vec<u8>>) -> Seq<Seq<u8>> {
    r.map_values(|v: Vec<u8>| v@)
}

/// The views of a record list.
pub open spec fn rows_view(rs: Seq<Vec<Vec<u8>>>) -> Seq<Seq<Seq<u8>>> {
    rs.map_values(|r: Vec<Vec<u8>>| fields_view(r@))
}

/// Split delimited text into records of raw fields.
#[verifier::loop_isolation(false)]
pub fn tokenize(data: &Vec<u8>) -> (r: Vec<Vec<Vec<u8>>>)
    ensures
        rows_view(r@) == csv_rows(data@),
{
    let n = data.len();
    let mut recs: Vec<Vec<Vec<u8>>> = Vec::new();
    let mut rec: Vec<Vec<u8>> = Vec::new();
    let mut field: Vec<u8> = Vec::new();
    let mut mode = ScanMode::FieldStart;
    let mut i: usize = 0;
    proof {
        assert(rows_view(recs@) =~= Seq::<Seq<Seq<u8>>>::empty());
        assert(fields_view(rec@) =~= Seq::<Seq<u8>>::empty());
    }
    while i < n
        invariant
            n == data@.len(),
            0 <= i <= n,
            csv_scan(data@, 0, init_state()) == csv_scan(
                data@,
                i as int,
                ScanState { recs: rows_view(recs@), rec: fields_view(rec@), field: field@, mode },
            ),
        decreases n - i,
    {
        let ghost pre = ScanState {
            recs: rows_view(recs@),
            rec: fields_view(rec@),
            field: field@,
            mode,
        };
        let b = data[i];
        let eff_mode = if mode == ScanMode::AfterCr {
            if b == 0x0a {
                mode = ScanMode::FieldStart;
                ScanMode::AfterCr
            } else {
                ScanMode::FieldStart
            }
        } else {
            mode
        };
        if eff_mode == ScanMode::AfterCr {
            proof {
                assert(csv_step(pre, b) == ScanState { mode: ScanMode::FieldStart, ..pre });
            }
        } else if eff_mode == ScanMode::FieldStart {
            if b == 0x22 {
                mode = ScanMode::Quoted;
            } else if b == 0x2c {
                let ghost prerec = rec@;
                rec.push(field);
                field = Vec::new();
                mode = ScanMode::FieldStart;
                proof {
                    assert(fields_view(rec@) =~= fields_view(prerec).push(pre.field));
                }
            } else if b == 0x0a || b == 0x0d {
                let newmode = if b == 0x0d {
                    ScanMode::AfterCr
                } else {
                    ScanMode::FieldStart
                };
                if rec.len() == 0 {
                    mode = newmode;
                } else {
                    let ghost prerec = rec@;
                    let ghost prerecs = recs@;
                    rec.push(field);
                    field = Vec::new();
                    let ghost pushedrec = rec@;
                    recs.push(rec);
                    rec = Vec::new();
                    mode = newmode;
                    proof {
                        assert(fields_view(rec@) =~= Seq::<Seq<u8>>::empty());
                        assert(fields_view(pushedrec) =~= fields_view(prerec).push(pre.field));
                        assert(rows_view(recs@) =~= rows_view(prerecs).push(
                            fields_view(pushedrec),
                        ));
                    }
                }
            } else {
                field.push(b);
                mode = ScanMode::Unquoted;
                proof {
                    assert(field@ =~= pre.field.push(b));
                }
            }
        } else if eff_mode == ScanMode::Unquoted || eff_mode == ScanMode::QuoteClosed {
            if eff_mode == ScanMode::QuoteClosed && b == 0x22 {
                field.push(0x22);
                mode = ScanMode::Quoted;
            } else if b == 0x2c {
                let ghost prerec = rec@;
                rec.push(field);
                field = Vec::new();
                mode = ScanMode::FieldStart;
                proof {
                    assert(fields_view(rec@) =~= fields_view(prerec).push(pre.field));
                }
            } else if b == 0x0a || b == 0x0d {
                let ghost prerec = rec@;
                let ghost prerecs = recs@;
                rec.push(field);
                field = Vec::new();
                let ghost pushedrec = rec@;
                recs.push(rec);
                rec = Vec::new();
                mode = if b == 0x0d {
                    ScanMode::AfterCr
                } else {
                    ScanMode::FieldStart
                };
                proof {
                    assert(fields_view(rec@) =~= Seq::<Seq<u8>>::empty());
                    assert(fields_view(pushedrec) =~= fields_view(prerec).push(pre.field));
                    assert(rows_view(recs@) =~= rows_view(prerecs).push(
                        fields_view(pushedrec),
                    ));
                }
            } else {
                field.push(b);
                if eff_mode == ScanMode::QuoteClosed {
                    mode = ScanMode::Unquoted;
                }
                proof {
                    assert(field@ =~= pre.field.push(b));
                }
            }
        } else {
            if b == 0x22 {
                mode = ScanMode::QuoteClosed;
            } else {
                field.push(b);
                proof {
                    assert(field@ =~= pre.field.push(b));
                }
            }
        }
        proof {
            assert(ScanState {
                recs: rows_view(recs@),
                rec: fields_view(rec@),
                field: field@,
                mode,
            } == csv_step(pre, b));
        }
        i += 1;
    }
    let st_mode = mode;
    if st_mode == ScanMode::FieldStart || st_mode == ScanMode::AfterCr {
        if rec.len() == 0 && field.len() == 0 {
            return recs;
        }
    }
    let ghost prerec = rec@;
    let ghost prerecs = recs@;
    let ghost prefield = field@;
    rec.push(field);
    let ghost pushedrec = rec@;
    recs.push(rec);
    proof {
        assert(fields_view(pushedrec) =~= fields_view(prerec).push(prefield));
        assert(rows_view(recs@) =~= rows_view(prerecs).push(fields_view(pushedrec)));
    }
    recs
}

} // verus!

verus! {

use crate::errors::FeedErrorKind;

/// ASCII whitespace, as trimmed from fields.
pub open spec fn is_ws(b: u8) -> bool {
    b == 0x20 || b == 0x09 || b == 0x0a || b == 0x0d || b == 0x0c
}

/// Position of the first non-whitespace byte at or after `i`.
pub open spec fn first_non_ws(s: Seq<u8>, i: int) -> int
    decreases s.len() - i,
        when 0 <= i <= s.len()
{
    if i == s.len() {
        i
    } else if is_ws(s[i]) {
        first_non_ws(s, i + 1)
    } else {
        i
    }
}

/// Position after the last non-whitespace byte before `j`.
pub open spec fn last_non_ws(s: Seq<u8>, j: int) -> int
    decreases j,
        when 0 <= j <= s.len()
{
    if j == 0 {
        0
    } else if is_ws(s[j - 1]) {
        last_non_ws(s, j - 1)
    } else {
        j
    }
}

/// The field with surrounding ASCII whitespace removed.
pub open spec fn spec_trim(s: Seq<u8>) -> Seq<u8> {
    let a = first_non_ws(s, 0);
    let b = last_non_ws(s, s.len() as int);
    if a <= b {
        s.subrange(a, b)
    } else {
        Seq::empty()
    }
}

/// Trim surrounding ASCII whitespace.
#[verifier::loop_isolation(false)]
pub fn trim_bytes(v: &Vec<u8>) -> (r: Vec<u8>)
    ensures
        r@ == spec_trim(v@),
{
    let n = v.len();
    let mut a: usize = 0;
    while a < n && (v[a] == 0x20 || v[a] == 0x09 || v[a] == 0x0a || v[a] == 0x0d || v[a] == 0x0c)
        invariant
            0 <= a <= n,
            first_non_ws(v@, 0) == first_non_ws(v@, a as int),
        decreases n - a,
    {
        a += 1;
    }
    let mut b: usize = n;
    while b > 0 && (v[b - 1] == 0x20 || v[b - 1] == 0x09 || v[b - 1] == 0x0a || v[b - 1] == 0x0d
        || v[b - 1] == 0x0c)
        invariant
            0 <= b <= n,
            last_non_ws(v@, n as int) == last_non_ws(v@, b as int),
        decreases b,
    {
        b -= 1;
    }
    let mut r: Vec<u8> = Vec::new();
    if a <= b {
        let mut i: usize = a;
        while i < b
            invariant
                a <= i <= b <= n,
                r@ == v@.subrange(a as int, i as int),
            decreases b - i,
        {
            r.push(v[i]);
            proof {
                assert(r@ =~= v@.subrange(a as int, i as int + 1));
            }
            i += 1;
        }
        proof {
            assert(v@.subrange(a as int, a as int) =~= Seq::<u8>::empty());
        }
    }
    r
}

/// Whether two byte strings are equal.
fn eq_bytes(a: &Vec<u8>, b: &Vec<u8>) -> (r: bool)
    ensures
        r == (a@ == b@),
{
    let n = a.len();
    if n != b.len() {
        return false;
    }
    let mut i: usize = 0;
    while i < n
        invariant
            n == a@.len() == b@.len(),
            0 <= i <= n,
            forall|k: int| 0 <= k < i ==> a@[k] == b@[k],
        decreases n - i,
    {
        if a[i] != b[i] {
            return false;
        }
        i += 1;
    }
    proof {
        assert(a@ =~= b@);
    }
    true
}

/// First header position holding `name`, searching from `j`.
pub open spec fn col_index_from(header: Seq<Seq<u8>>, name: Seq<u8>, j: int) -> Option<int>
    decreases header.len() - j,
        when 0 <= j <= header.len()
{
    if j == header.len() {
        None
    } else if header[j] == name {
        Some(j)
    } else {
        col_index_from(header, name, j + 1)
    }
}

/// First header position holding `name`.
pub open spec fn col_index(header: Seq<Seq<u8>>, name: Seq<u8>) -> Option<int> {
    col_index_from(header, name, 0)
}

/// Find a column by name in the header.
#[verifier::loop_isolation(false)]
fn find_col(header: &Vec<Vec<u8>>, name: &Vec<u8>) -> (r: Option<usize>)
    ensures
        match r {
            Some(j) => col_index(fields_view(header@), name@) == Some(j as int) && (j as int)
                < header@.len(),
            None => col_index(fields_view(header@), name@) is None,
        },
{
    let n = header.len();
    let mut j: usize = 0;
    while j < n
        invariant
            n == header@.len(),
            0 <= j <= n,
            col_index(fields_view(header@), name@) == col_index_from(
                fields_view(header@),
                name@,
                j as int,
            ),
        decreases n - j,
    {
        if eq_bytes(&header[j], name) {
            proof {
                assert(fields_view(header@)[j as int] == header@[j as int]@);
            }
            return Some(j);
        }
        proof {
            assert(fields_view(header@)[j as int] == header@[j as int]@);
        }
        j += 1;
    }
    None
}

/// The raw cell of schema column `c` in a row, matched by header name.
pub open spec fn col_val(header: Seq<Seq<u8>>, row: Seq<Seq<u8>>, c: int) -> Option<Seq<u8>> {
    match col_index(header, col_name(c)) {
        None => None,
        Some(j) => if 0 <= j < row.len() {
            Some(row[j])
        } else {
            None
        },
    }
}

/// An optional field's value: absent when the column is missing or the
/// trimmed cell is blank.
pub open spec fn opt_of(v: Option<Seq<u8>>) -> Option<Seq<u8>> {
    match v {
        None => None,
        Some(s) => {
            let t = spec_trim(s);
            if t.len() == 0 {
                None
            } else {
                Some(t)
            }
        },
    }
}

/// The `wheelchair_boarding` value: absent when missing or blank, an
/// error when present but not a nonnegative integer.
pub open spec fn wheel_val(header: Seq<Seq<u8>>, row: Seq<Seq<u8>>) -> Option<Option<u32>> {
    match col_val(header, row, 12) {
        None => Some(None),
        Some(s) => {
            let t = spec_trim(s);
            if t.len() == 0 {
                Some(None)
            } else {
                match spec_parse_count(t) {
                    None => None,
                    Some(c) => Some(Some(c)),
                }
            }
        },
    }
}

/// Decode one data row against the header, or nothing where the row is
/// malformed: wrong width, a required column missing, or a coordinate or
/// code that does not parse.
pub open spec fn row_to_stop(header: Seq<Seq<u8>>, row: Seq<Seq<u8>>) -> Option<StopData> {
    if row.len() != header.len() {
        None
    } else if col_val(header, row, 0) is None || col_val(header, row, 2) is None || col_val(
        header,
        row,
        5,
    ) is None || col_val(header, row, 6) is None {
        None
    } else {
        let lat = spec_parse_coord(spec_trim(col_val(header, row, 5)->0));
        let lon = spec_parse_coord(spec_trim(col_val(header, row, 6)->0));
        let wheel = wheel_val(header, row);
        if lat is None || lon is None || wheel is None {
            None
        } else {
            Some(
                StopData {
                    stop_id: spec_trim(col_val(header, row, 0)->0),
                    stop_code: opt_of(col_val(header, row, 1)),
                    stop_name: spec_trim(col_val(header, row, 2)->0),
                    tts_stop_name: opt_of(col_val(header, row, 3)),
                    stop_desc: opt_of(col_val(header, row, 4)),
                    stop_lat: lat->0,
                    stop_lon: lon->0,
                    zone_id: opt_of(col_val(header, row, 7)),
                    stop_url: opt_of(col_val(header, row, 8)),
                    location_type: opt_of(col_val(header, row, 9)),
                    parent_station: opt_of(col_val(header, row, 10)),
                    stop_timezone: opt_of(col_val(header, row, 11)),
                    wheelchair_boarding: wheel->0,
                    level_id: opt_of(col_val(header, row, 13)),
                    platform_code: opt_of(col_val(header, row, 14)),
                },
            )
        }
    }
}

/// The cell of a required column, trimmed.
fn req_val(header: &Vec<Vec<u8>>, row: &Vec<Vec<u8>>, c: usize) -> (r: Option<Vec<u8>>)
    requires
        c < 15,
        row@.len() == header@.len(),
    ensures
        match r {
            Some(v) => col_val(fields_view(header@), fields_view(row@), c as int) is Some && v@
                == spec_trim(col_val(fields_view(header@), fields_view(row@), c as int)->0),
            None => col_val(fields_view(header@), fields_view(row@), c as int) is None,
        },
{
    let name = col_name_exec(c);
    match find_col(header, &name) {
        None => None,
        Some(j) => {
            proof {
                assert(fields_view(row@)[j as int] == row@[j as int]@);
            }
            Some(trim_bytes(&row[j]))
        },
    }
}

/// The value of an optional column: absent when missing or blank.
fn opt_val(header: &Vec<Vec<u8>>, row: &Vec<Vec<u8>>, c: usize) -> (r: Option<Vec<u8>>)
    requires
        c < 15,
        row@.len() == header@.len(),
    ensures
        opt_bytes(r) == opt_of(col_val(fields_view(header@), fields_view(row@), c as int)),
{
    match req_val(header, row, c) {
        None => None,
        Some(t) => {
            if t.len() == 0 {
                None
            } else {
                Some(t)
            }
        },
    }
}

/// The `wheelchair_boarding` value of a row.
fn wheel_exec(header: &Vec<Vec<u8>>, row: &Vec<Vec<u8>>) -> (r: Option<Option<u32>>)
    requires
        row@.len() == header@.len(),
    ensures
        match r {
            Some(o) => wheel_val(fields_view(header@), fields_view(row@)) == Some(o),
            None => wheel_val(fields_view(header@), fields_view(row@)) is None,
        },
{
    match req_val(header, row, 12) {
        None => Some(None),
        Some(t) => {
            if t.len() == 0 {
                Some(None)
            } else {
                match parse_count(t.as_slice()) {
                    None => None,
                    Some(c) => Some(Some(c)),
                }
            }
        },
    }
}

/// Decode one data row into a stop record.
pub fn make_stop(header: &Vec<Vec<u8>>, row: &Vec<Vec<u8>>) -> (r: Option<StopRecord>)
    ensures
        match r {
            Some(rec) => row_to_stop(fields_view(header@), fields_view(row@)) == Some(rec@),
            None => row_to_stop(fields_view(header@), fields_view(row@)) is None,
        },
{
    if row.len() != header.len() {
        return None;
    }
    let stop_id = match req_val(header, row, 0) {
        Some(v) => v,
        None => {
            return None;
        },
    };
    let stop_name = match req_val(header, row, 2) {
        Some(v) => v,
        None => {
            return None;
        },
    };
    let lat_txt = match req_val(header, row, 5) {
        Some(v) => v,
        None => {
            return None;
        },
    };
    let lon_txt = match req_val(header, row, 6) {
        Some(v) => v,
        None => {
            return None;
        },
    };
    let stop_lat = match parse_coord(lat_txt.as_slice()) {
        Some(v) => v,
        None => {
            return None;
        },
    };
    let stop_lon = match parse_coord(lon_txt.as_slice()) {
        Some(v) => v,
        None => {
            return None;
        },
    };
    let wheelchair_boarding = match wheel_exec(header, row) {
        Some(o) => o,
        None => {
            return None;
        },
    };
    let stop_code = opt_val(header, row, 1);
    let tts_stop_name = opt_val(header, row, 3);
    let stop_desc = opt_val(header, row, 4);
    let zone_id = opt_val(header, row, 7);
    let stop_url = opt_val(header, row, 8);
    let location_type = opt_val(header, row, 9);
    let parent_station = opt_val(header, row, 10);
    let stop_timezone = opt_val(header, row, 11);
    let level_id = opt_val(header, row, 13);
    let platform_code = opt_val(header, row, 14);
    Some(
        StopRecord {
            stop_id,
            stop_code,
            stop_name,
            tts_stop_name,
            stop_desc,
            stop_lat,
            stop_lon,
            zone_id,
            stop_url,
            location_type,
            parent_station,
            stop_timezone,
            wheelchair_boarding,
            level_id,
            platform_code,
        },
    )
}

/// Decode data rows `i..` against the header, onto `acc`.
pub open spec fn rows_to_stops(
    header: Seq<Seq<u8>>,
    rows: Seq<Seq<Seq<u8>>>,
    i: int,
    acc: Seq<StopData>,
) -> Result<Seq<StopData>, ()>
    decreases rows.len() - i,
        when 1 <= i <= rows.len()
{
    if i == rows.len() {
        Ok(acc)
    } else {
        match row_to_stop(header, rows[i]) {
            None => Err(()),
            Some(d) => rows_to_stops(header, rows, i + 1, acc.push(d)),
        }
    }
}

/// What `parse_stops` returns: every data row decoded against the header
/// row, or an error if there is no header or any row is malformed.
pub open spec fn spec_parse_stops(s: Seq<u8>) -> Result<Seq<StopData>, ()> {
    let rows = csv_rows(s);
    if rows.len() == 0 {
        Err(())
    } else {
        rows_to_stops(rows[0], rows, 1, Seq::empty())
    }
}

/// Decode a whole `stops.txt` byte stream into stop records.
#[verifier::loop_isolation(false)]
pub fn parse_stops(data: &Vec<u8>) -> (r: Result<Vec<StopRecord>, FeedErrorKind>)
    ensures
        match r {
            Ok(stops) => spec_parse_stops(data@) == Ok::<Seq<StopData>, ()>(stops_view(stops@)),
            Err(k) => spec_parse_stops(data@) is Err && k == FeedErrorKind::Decode,
        },
{
    let rows = tokenize(data);
    let n = rows.len();
    if n == 0 {
        return Err(FeedErrorKind::Decode);
    }
    let mut stops: Vec<StopRecord> = Vec::new();
    proof {
        assert(stops_view(stops@) =~= Seq::<StopData>::empty());
    }
    let mut i: usize = 1;
    while i < n
        invariant
            n == rows@.len(),
            1 <= i <= n,
            rows_to_stops(rows_view(rows@)[0], rows_view(rows@), 1, Seq::empty())
                == rows_to_stops(rows_view(rows@)[0], rows_view(rows@), i as int, stops_view(stops@)),
        decreases n - i,
    {
        proof {
            assert(rows_view(rows@)[0] == fields_view(rows@[0]@));
            assert(rows_view(rows@)[i as int] == fields_view(rows@[i as int]@));
        }
        let rec = match make_stop(&rows[0], &rows[i]) {
            Some(rec) => rec,
            None => {
                return Err(FeedErrorKind::Decode);
            },
        };
        let ghost prev = stops@;
        stops.push(rec);
        proof {
            assert(stops_view(stops@) =~= stops_view(prev).push(rec@));
        }
        i += 1;
    }
    Ok(stops)
}

} // verus!

verus! {

/// A row missing every optional column still parses, and every optional
/// field of the decoded record is absent.
pub proof fn lemma_missing_optionals(header: Seq<Seq<u8>>, row: Seq<Seq<u8>>)
    requires
        row.len() == header.len(),
        col_val(header, row, 0) is Some,
        col_val(header, row, 2) is Some,
        col_val(header, row, 5) is Some,
        col_val(header, row, 6) is Some,
        spec_parse_coord(spec_trim(col_val(header, row, 5)->0)) is Some,
        spec_parse_coord(spec_trim(col_val(header, row, 6)->0)) is Some,
        forall|c: int|
            c == 1 || c == 3 || c == 4 || (7 <= c <= 14) ==> #[trigger] col_index(
                header,
                col_name(c),
            ) is None,
    ensures
        row_to_stop(header, row) is Some,
        row_to_stop(header, row)->0.stop_code is None,
        row_to_stop(header, row)->0.tts_stop_name is None,
        row_to_stop(header, row)->0.stop_desc is None,
        row_to_stop(header, row)->0.zone_id is None,
        row_to_stop(header, row)->0.stop_url is None,
        row_to_stop(header, row)->0.location_type is None,
        row_to_stop(header, row)->0.parent_station is None,
        row_to_stop(header, row)->0.stop_timezone is None,
        row_to_stop(header, row)->0.wheelchair_boarding is None,
        row_to_stop(header, row)->0.level_id is None,
        row_to_stop(header, row)->0.platform_code is None,
{
    assert(col_index(header, col_name(1)) is None);
    assert(col_index(header, col_name(3)) is None);
    assert(col_index(header, col_name(4)) is None);
    assert(col_index(header, col_name(7)) is None);
    assert(col_index(header, col_name(8)) is None);
    assert(col_index(header, col_name(9)) is None);
    assert(col_index(header, col_name(10)) is None);
    assert(col_index(header, col_name(11)) is None);
    assert(col_index(header, col_name(12)) is None);
    assert(col_index(header, col_name(13)) is None);
    assert(col_index(header, col_name(14)) is None);
}

proof fn lemma_rows_all_ok(
    header: Seq<Seq<u8>>,
    rows: Seq<Seq<Seq<u8>>>,
    j: int,
    acc: Seq<StopData>,
)
    requires
        1 <= j <= rows.len(),
        rows_to_stops(header, rows, j, acc) is Ok,
    ensures
        forall|i: int| j <= i < rows.len() ==> row_to_stop(header, #[trigger] rows[i]) is Some,
    decreases rows.len() - j,
{
    if j < rows.len() {
        match row_to_stop(header, rows[j]) {
            None => {
                assert(false);
            },
            Some(d) => {
                lemma_rows_all_ok(header, rows, j + 1, acc.push(d));
            },
        }
    }
}

/// A data row whose latitude or longitude is missing or not numeric
/// fails the whole feed: no record of any row survives.
pub proof fn lemma_bad_coord_fails_feed(s: Seq<u8>, i: int)
    requires
        1 <= i < csv_rows(s).len(),
        ({
            let header = csv_rows(s)[0];
            let row = csv_rows(s)[i];
            ||| col_val(header, row, 5) is None
            ||| col_val(header, row, 6) is None
            ||| (col_val(header, row, 5) is Some && spec_parse_coord(
                spec_trim(col_val(header, row, 5)->0),
            ) is None)
            ||| (col_val(header, row, 6) is Some && spec_parse_coord(
                spec_trim(col_val(header, row, 6)->0),
            ) is None)
        }),
    ensures
        spec_parse_stops(s) is Err,
{
    let header = csv_rows(s)[0];
    let row = csv_rows(s)[i];
    assert(row_to_stop(header, row) is None);
    if spec_parse_stops(s) is Ok {
        lemma_rows_all_ok(header, csv_rows(s), 1, Seq::empty());
        assert(row_to_stop(header, csv_rows(s)[i]) is Some);
        assert(false);
    }
}

} // verus!

verus! {

use crate::fixed::dec_rep;
use crate::fixed::is_ascii_digit;
use crate::fixed::lemma_coord_round_trip;
use crate::fixed::lemma_count_round_trip;
use crate::fixed::lemma_dec_rep_digits;
use crate::fixed::lemma_format_coord_shape;
use crate::fixed::spec_format_coord;

/// A header naming every schema column, in schema order.
pub open spec fn canonical_header() -> Seq<Seq<u8>> {
    Seq::new(15, |c: int| col_name(c))
}

/// An optional field re-encoded as a cell: blank when absent.
pub open spec fn opt_cell(o: Option<Seq<u8>>) -> Seq<u8> {
    match o {
        None => Seq::empty(),
        Some(v) => v,
    }
}

/// A code field re-encoded as a cell: blank when absent, else digits.
pub open spec fn wheel_cell(o: Option<u32>) -> Seq<u8> {
    match o {
        None => Seq::empty(),
        Some(c) => dec_rep(c as int),
    }
}

/// A record re-encoded as one data row under the canonical header.
pub open spec fn record_row(d: StopData) -> Seq<Seq<u8>> {
    seq![
        d.stop_id,
        opt_cell(d.stop_code),
        d.stop_name,
        opt_cell(d.tts_stop_name),
        opt_cell(d.stop_desc),
        spec_format_coord(d.stop_lat),
        spec_format_coord(d.stop_lon),
        opt_cell(d.zone_id),
        opt_cell(d.stop_url),
        opt_cell(d.location_type),
        opt_cell(d.parent_station),
        opt_cell(d.stop_timezone),
        wheel_cell(d.wheelchair_boarding),
        opt_cell(d.level_id),
        opt_cell(d.platform_code),
    ]
}

proof fn lemma_names_distinct(a: int, b: int)
    requires
        0 <= a < b < 15,
    ensures
        col_name(a) != col_name(b),
{
    if a == 0 && b == 7 {
        assert(col_name(0)[0] != col_name(7)[0]);
    } else if a == 1 && b == 2 {
        assert(col_name(1)[5] != col_name(2)[5]);
    } else if a == 1 && b == 4 {
        assert(col_name(1)[5] != col_name(4)[5]);
    } else if a == 2 && b == 4 {
        assert(col_name(2)[5] != col_name(4)[5]);
    } else if a == 5 && b == 6 {
        assert(col_name(5)[6] != col_name(6)[6]);
    } else if a == 5 && b == 8 {
        assert(col_name(5)[5] != col_name(8)[5]);
    } else if a == 5 && b == 13 {
        assert(col_name(5)[0] != col_name(13)[0]);
    } else if a == 6 && b == 8 {
        assert(col_name(6)[5] != col_name(8)[5]);
    } else if a == 6 && b == 13 {
        assert(col_name(6)[0] != col_name(13)[0]);
    } else if a == 8 && b == 13 {
        assert(col_name(8)[0] != col_name(13)[0]);
    } else if a == 3 && b == 9 {
        assert(col_name(3)[0] != col_name(9)[0]);
    } else if a == 3 && b == 11 {
        assert(col_name(3)[0] != col_name(11)[0]);
    } else if a == 3 && b == 14 {
        assert(col_name(3)[0] != col_name(14)[0]);
    } else if a == 9 && b == 11 {
        assert(col_name(9)[0] != col_name(11)[0]);
    } else if a == 9 && b == 14 {
        assert(col_name(9)[0] != col_name(14)[0]);
    } else if a == 11 && b == 14 {
        assert(col_name(11)[0] != col_name(14)[0]);
    } else {
        assert(col_name(a).len() != col_name(b).len());
    }
}

proof fn lemma_col_index_steps(header: Seq<Seq<u8>>, name: Seq<u8>, j: int, c: int)
    requires
        0 <= j <= c < header.len(),
        header[c] == name,
        forall|t: int| j <= t < c ==> header[t] != name,
    ensures
        col_index_from(header, name, j) == Some(c),
    decreases c - j,
{
    if j < c {
        lemma_col_index_steps(header, name, j + 1, c);
    }
}

proof fn lemma_canonical_col(c: int)
    requires
        0 <= c < 15,
    ensures
        col_index(canonical_header(), col_name(c)) == Some(c),
{
    assert forall|t: int| 0 <= t < c implies canonical_header()[t] != col_name(c) by {
        lemma_names_distinct(t, c);
    }
    lemma_col_index_steps(canonical_header(), col_name(c), 0, c);
}

/// Trimming text that neither starts nor ends with whitespace leaves it
/// unchanged.
proof fn lemma_trim_clean(s: Seq<u8>)
    requires
        s.len() > 0,
        !is_ws(s[0]),
        !is_ws(s.last()),
    ensures
        spec_trim(s) == s,
{
    assert(first_non_ws(s, 0) == 0);
    assert(last_non_ws(s, s.len() as int) == s.len());
    assert(s.subrange(0, s.len() as int) =~= s);
}

/// Re-encoding a decoded record as a data row and decoding it again
/// preserves the required fields exactly: the identifier, the name, and
/// both coordinates.
pub proof fn lemma_row_round_trip(d: StopData)
    requires
        -0x80000000 <= d.stop_lat <= 0x7fffffff,
        -0x80000000 <= d.stop_lon <= 0x7fffffff,
        spec_trim(d.stop_id) == d.stop_id,
        spec_trim(d.stop_name) == d.stop_name,
    ensures
        row_to_stop(canonical_header(), record_row(d)) is Some,
        row_to_stop(canonical_header(), record_row(d))->0.stop_id == d.stop_id,
        row_to_stop(canonical_header(), record_row(d))->0.stop_name == d.stop_name,
        row_to_stop(canonical_header(), record_row(d))->0.stop_lat == d.stop_lat,
        row_to_stop(canonical_header(), record_row(d))->0.stop_lon == d.stop_lon,
{
    let h = canonical_header();
    let row = record_row(d);
    assert(row.len() == h.len());
    assert forall|c: int| 0 <= c < 15 implies col_val(h, row, c) == Some(row[c]) by {
        lemma_canonical_col(c);
    }
    assert(col_val(h, row, 0) == Some(d.stop_id));
    assert(col_val(h, row, 2) == Some(d.stop_name));
    assert(col_val(h, row, 5) == Some(spec_format_coord(d.stop_lat)));
    assert(col_val(h, row, 6) == Some(spec_format_coord(d.stop_lon)));
    lemma_format_coord_shape(d.stop_lat);
    lemma_format_coord_shape(d.stop_lon);
    lemma_trim_clean(spec_format_coord(d.stop_lat));
    lemma_trim_clean(spec_format_coord(d.stop_lon));
    lemma_coord_round_trip(d.stop_lat);
    lemma_coord_round_trip(d.stop_lon);
    assert(col_val(h, row, 12) == Some(wheel_cell(d.wheelchair_boarding)));
    match d.wheelchair_boarding {
        None => {
            assert(spec_trim(Seq::<u8>::empty()) =~= Seq::<u8>::empty());
            assert(wheel_val(h, row) == Some(None::<u32>));
        },
        Some(c) => {
            lemma_dec_rep_digits(c as int);
            assert(is_ascii_digit(dec_rep(c as int)[0]));
            assert(is_ascii_digit(dec_rep(c as int).last()));
            lemma_trim_clean(dec_rep(c as int));
            lemma_count_round_trip(c);
            assert(wheel_val(h, row) == Some(Some(c)));
        },
    }
}

} // verus!

verus! {

use crate::fixed::format_coord;
use crate::fixed::push_dec;

/// A byte that forces a cell into quotes: separator, quote, or line end.
pub open spec fn is_special(b: u8) -> bool {
    b == 0x2c || b == 0x22 || b == 0x0a || b == 0x0d
}

/// Whether a cell must be quoted to survive re-parsing.
pub open spec fn needs_quotes(f: Seq<u8>) -> bool {
    exists|k: int| 0 <= k < f.len() && is_special(#[trigger] f[k])
}

/// The cell with every quote doubled.
pub open spec fn escape_quotes(f: Seq<u8>) -> Seq<u8>
    decreases f.len(),
{
    if f.len() == 0 {
        Seq::empty()
    } else if f.last() == 0x22 {
        escape_quotes(f.drop_last()) + seq![0x22u8, 0x22u8]
    } else {
        escape_quotes(f.drop_last()) + seq![f.last()]
    }
}

/// One cell as delimited text: quoted exactly when it holds a special
/// byte.
pub open spec fn cell_text(f: Seq<u8>) -> Seq<u8> {
    if needs_quotes(f) {
        seq![0x22u8] + escape_quotes(f) + seq![0x22u8]
    } else {
        f
    }
}

/// One record's cells as a comma-separated line, without the line end.
pub open spec fn row_text(row: Seq<Seq<u8>>) -> Seq<u8>
    decreases row.len(),
{
    if row.len() == 0 {
        Seq::empty()
    } else if row.len() == 1 {
        cell_text(row[0])
    } else {
        row_text(row.drop_last()) + seq![0x2cu8] + cell_text(row.last())
    }
}

/// What `encode_row` produces: the record's cells under the canonical
/// column order, comma separated, ending in a line feed.
pub open spec fn spec_encode_row(d: StopData) -> Seq<u8> {
    row_text(record_row(d)) + seq![0x0au8]
}

/// Append one cell, quoting it when needed.
#[verifier::loop_isolation(false)]
fn push_cell(out: &mut Vec<u8>, f: &Vec<u8>)
    ensures
        final(out)@ == old(out)@ + cell_text(f@),
{
    let n = f.len();
    let mut special = false;
    let mut i: usize = 0;
    while i < n
        invariant
            n == f@.len(),
            0 <= i <= n,
            special == exists|k: int| 0 <= k < i && is_special(#[trigger] f@[k]),
        decreases n - i,
    {
        if f[i] == 0x2c || f[i] == 0x22 || f[i] == 0x0a || f[i] == 0x0d {
            special = true;
        }
        i += 1;
    }
    if !special {
        let mut j: usize = 0;
        while j < n
            invariant
                n == f@.len(),
                0 <= j <= n,
                out@ == old(out)@ + f@.take(j as int),
            decreases n - j,
        {
            out.push(f[j]);
            proof {
                assert(out@ =~= old(out)@ + f@.take(j as int + 1));
            }
            j += 1;
        }
        proof {
            assert(f@.take(n as int) =~= f@);
        }
    } else {
        out.push(0x22);
        let mut j: usize = 0;
        while j < n
            invariant
                n == f@.len(),
                0 <= j <= n,
                out@ == old(out)@ + seq![0x22u8] + escape_quotes(f@.take(j as int)),
            decreases n - j,
    {
            let b = f[j];
            proof {
                assert(f@.take(j as int + 1).drop_last() =~= f@.take(j as int));
                assert(f@.take(j as int + 1).last() == f@[j as int]);
            }
            if b == 0x22 {
                out.push(0x22);
                out.push(0x22);
                proof {
                    assert(out@ =~= old(out)@ + seq![0x22u8] + escape_quotes(
                        f@.take(j as int + 1),
                    ));
                }
            } else {
                out.push(b);
                proof {
                    assert(out@ =~= old(out)@ + seq![0x22u8] + escape_quotes(
                        f@.take(j as int + 1),
                    ));
                }
            }
            j += 1;
        }
        out.push(0x22);
        proof {
            assert(f@.take(n as int) =~= f@);
            assert(out@ =~= old(out)@ + cell_text(f@));
        }
    }
}

/// Append the cell of an optional field: blank when absent.
fn push_opt_cell(out: &mut Vec<u8>, o: &Option<Vec<u8>>)
    ensures
        final(out)@ == old(out)@ + cell_text(opt_cell(opt_bytes(*o))),
{
    match o {
        None => {
            proof {
                assert(cell_text(Seq::<u8>::empty()) =~= Seq::<u8>::empty());
                assert(out@ =~= old(out)@ + cell_text(opt_cell(None)));
            }
        },
        Some(v) => {
            push_cell(out, v);
        },
    }
}

/// Re-encode one record as a data row under the canonical column order.
#[verifier::loop_isolation(false)]
pub fn encode_row(rec: &StopRecord) -> (r: Vec<u8>)
    ensures
        r@ == spec_encode_row(rec@),
{
    let ghost row = record_row(rec@);
    let mut out: Vec<u8> = Vec::new();
    push_cell(&mut out, &rec.stop_id);
    proof {
        assert(row.take(1).drop_last() =~= Seq::<Seq<u8>>::empty());
        assert(out@ =~= row_text(row.take(1)));
    }
    push_comma(&mut out);
    push_opt_cell(&mut out, &rec.stop_code);
    proof {
        lemma_row_text_step(row, 2);
        assert(out@ =~= row_text(row.take(2)));
    }
    push_comma(&mut out);
    push_cell(&mut out, &rec.stop_name);
    proof {
        lemma_row_text_step(row, 3);
        assert(out@ =~= row_text(row.take(3)));
    }
    push_comma(&mut out);
    push_opt_cell(&mut out, &rec.tts_stop_name);
    proof {
        lemma_row_text_step(row, 4);
        assert(out@ =~= row_text(row.take(4)));
    }
    push_comma(&mut out);
    push_opt_cell(&mut out, &rec.stop_desc);
    proof {
        lemma_row_text_step(row, 5);
        assert(out@ =~= row_text(row.take(5)));
    }
    push_comma(&mut out);
    let lat = format_coord(rec.stop_lat);
    push_cell(&mut out, &lat);
    proof {
        lemma_row_text_step(row, 6);
        assert(out@ =~= row_text(row.take(6)));
    }
    push_comma(&mut out);
    let lon = format_coord(rec.stop_lon);
    push_cell(&mut out, &lon);
    proof {
        lemma_row_text_step(row, 7);
        assert(out@ =~= row_text(row.take(7)));
    }
    push_comma(&mut out);
    push_opt_cell(&mut out, &rec.zone_id);
    proof {
        lemma_row_text_step(row, 8);
        assert(out@ =~= row_text(row.take(8)));
    }
    push_comma(&mut out);
    push_opt_cell(&mut out, &rec.stop_url);
    proof {
        lemma_row_text_step(row, 9);
        assert(out@ =~= row_text(row.take(9)));
    }
    push_comma(&mut out);
    push_opt_cell(&mut out, &rec.location_type);
    proof {
        lemma_row_text_step(row, 10);
        assert(out@ =~= row_text(row.take(10)));
    }
    push_comma(&mut out);
    push_opt_cell(&mut out, &rec.parent_station);
    proof {
        lemma_row_text_step(row, 11);
        assert(out@ =~= row_text(row.take(11)));
    }
    push_comma(&mut out);
    push_opt_cell(&mut out, &rec.stop_timezone);
    proof {
        lemma_row_text_step(row, 12);
        assert(out@ =~= row_text(row.take(12)));
    }
    push_comma(&mut out);
    match &rec.wheelchair_boarding {
        None => {
            proof {
                assert(cell_text(Seq::<u8>::empty()) =~= Seq::<u8>::empty());
            }
        },
        Some(c) => {
            let mut w: Vec<u8> = Vec::new();
            push_dec(&mut w, *c as u64);
            proof {
                lemma_dec_rep_digits(*c as int);
                assert forall|k: int| 0 <= k < w@.len() implies !is_special(#[trigger] w@[k]) by {
                    assert(is_ascii_digit(w@[k]));
                }
                assert(!needs_quotes(w@));
            }
            push_cell(&mut out, &w);
        },
    }
    proof {
        lemma_row_text_step(row, 13);
        assert(out@ =~= row_text(row.take(13)));
    }
    push_comma(&mut out);
    push_opt_cell(&mut out, &rec.level_id);
    proof {
        lemma_row_text_step(row, 14);
        assert(out@ =~= row_text(row.take(14)));
    }
    push_comma(&mut out);
    push_opt_cell(&mut out, &rec.platform_code);
    proof {
        lemma_row_text_step(row, 15);
        assert(row.take(15) =~= row);
        assert(out@ =~= row_text(row));
    }
    out.push(0x0a);
    proof {
        assert(out@ =~= spec_encode_row(rec@));
    }
    out
}

/// Append the field separator.
fn push_comma(out: &mut Vec<u8>)
    ensures
        final(out)@ == old(out)@ + seq![0x2cu8],
{
    out.push(0x2c);
    proof {
        assert(out@ =~= old(out)@ + seq![0x2cu8]);
    }
}

proof fn lemma_row_text_step(row: Seq<Seq<u8>>, m: int)
    requires
        2 <= m <= row.len(),
    ensures
        row_text(row.take(m)) == row_text(row.take(m - 1)) + seq![0x2cu8] + cell_text(
            row[m - 1],
        ),
{
    assert(row.take(m).drop_last() =~= row.take(m - 1));
    assert(row.take(m).last() == row[m - 1]);
}

} // verus!

verus! {

use crate::fixed::lemma_format_coord_bytes;

proof fn lemma_scan_shift(s: Seq<u8>, i: int, st: ScanState)
    requires
        0 <= i <= s.len(),
    ensures
        csv_scan(s, i, st) == csv_scan(s.skip(i), 0, st),
    decreases s.len() - i,
{
    if i < s.len() {
        assert(s.skip(i)[0] == s[i]);
        lemma_scan_shift(s, i + 1, csv_step(st, s[i]));
        lemma_scan_shift(s.skip(i), 1, csv_step(st, s[i]));
        assert(s.skip(i).skip(1) =~= s.skip(i + 1));
    } else {
        assert(s.skip(i) =~= Seq::<u8>::empty());
    }
}

proof fn lemma_scan_concat(s: Seq<u8>, t: Seq<u8>, st: ScanState)
    ensures
        csv_scan(s + t, 0, st) == csv_scan(t, 0, csv_scan(s, 0, st)),
    decreases s.len(),
{
    if s.len() == 0 {
        assert(s + t =~= t);
    } else {
        assert((s + t)[0] == s[0]);
        lemma_scan_shift(s + t, 1, csv_step(st, s[0]));
        assert((s + t).skip(1) =~= s.drop_first() + t);
        lemma_scan_concat(s.drop_first(), t, csv_step(st, s[0]));
        lemma_scan_shift(s, 1, csv_step(st, s[0]));
        assert(s.skip(1) =~= s.drop_first());
    }
}

/// A cell is clean when no byte of it is special: it needs no quoting
/// and the tokenizer reads it back verbatim.
pub open spec fn clean_cell(f: Seq<u8>) -> bool {
    forall|k: int| 0 <= k < f.len() ==> !is_special(#[trigger] f[k])
}

proof fn lemma_scan_clean(f: Seq<u8>, st: ScanState)
    requires
        clean_cell(f),
        st.mode == ScanMode::FieldStart || st.mode == ScanMode::Unquoted,
    ensures
        csv_scan(f, 0, st) == (ScanState {
            field: st.field + f,
            mode: if f.len() == 0 {
                st.mode
            } else {
                ScanMode::Unquoted
            },
            ..st
        }),
    decreases f.len(),
{
    if f.len() == 0 {
        assert(st.field + f =~= st.field);
        assert(csv_scan(f, 0, st) == st);
        assert((ScanState { field: st.field + f, mode: st.mode, ..st }) == st);
    } else {
        let st1 = csv_step(st, f[0]);
        assert(st1 == (ScanState { field: st.field.push(f[0]), mode: ScanMode::Unquoted, ..st }));
        lemma_scan_shift(f, 1, st1);
        assert(f.skip(1) =~= f.drop_first());
        lemma_scan_clean(f.drop_first(), st1);
        assert(st.field.push(f[0]) + f.drop_first() =~= st.field + f);
    }
}

/// Every cell of the row is clean.
pub open spec fn clean_row(row: Seq<Seq<u8>>) -> bool {
    forall|i: int| 0 <= i < row.len() ==> clean_cell(#[trigger] row[i])
}

proof fn lemma_scan_row_text(row: Seq<Seq<u8>>, st: ScanState)
    requires
        row.len() >= 1,
        clean_row(row),
        st.mode == ScanMode::FieldStart,
        st.field == Seq::<u8>::empty(),
    ensures
        csv_scan(row_text(row), 0, st) == (ScanState {
            rec: st.rec + row.drop_last(),
            field: row.last(),
            mode: if row.last().len() == 0 {
                ScanMode::FieldStart
            } else {
                ScanMode::Unquoted
            },
            ..st
        }),
    decreases row.len(),
{
    if row.len() == 1 {
        assert(cell_text(row[0]) == row[0]);
        lemma_scan_clean(row[0], st);
        assert(st.field + row[0] =~= row[0]);
        assert(st.rec + row.drop_last() =~= st.rec);
    } else {
        let front = row.drop_last();
        assert(clean_row(front)) by {
            assert forall|i: int| 0 <= i < front.len() implies clean_cell(#[trigger] front[i]) by {
                assert(front[i] == row[i]);
            }
        }
        lemma_scan_row_text(front, st);
        let a = csv_scan(row_text(front), 0, st);
        assert(cell_text(row.last()) == row.last());
        assert(row_text(row) == row_text(front) + seq![0x2cu8] + cell_text(row.last()));
        lemma_scan_concat(row_text(front) + seq![0x2cu8], cell_text(row.last()), st);
        lemma_scan_concat(row_text(front), seq![0x2cu8], st);
        assert((row_text(front) + seq![0x2cu8]) + cell_text(row.last()) =~= row_text(row));
        let b = csv_scan(seq![0x2cu8], 0, a);
        assert(b == csv_step(a, 0x2c)) by {
            lemma_scan_shift(seq![0x2cu8], 1, csv_step(a, 0x2c));
            assert(seq![0x2cu8].skip(1) =~= Seq::<u8>::empty());
        }
        assert(b == (ScanState {
            rec: a.rec.push(a.field),
            field: Seq::empty(),
            mode: ScanMode::FieldStart,
            ..a
        }));
        assert(a.rec.push(a.field) =~= st.rec + row.drop_last()) by {
            assert((st.rec + front.drop_last()).push(front.last()) =~= st.rec + front);
        }
        lemma_scan_clean(row.last(), b);
        assert(b.field + row.last() =~= row.last());
    }
}

proof fn lemma_scan_line(row: Seq<Seq<u8>>, st: ScanState)
    requires
        row.len() >= 2,
        clean_row(row),
        st.mode == ScanMode::FieldStart,
        st.field == Seq::<u8>::empty(),
    ensures
        csv_scan(row_text(row) + seq![0x0au8], 0, st) == (ScanState {
            recs: st.recs.push(st.rec + row),
            rec: Seq::empty(),
            field: Seq::empty(),
            mode: ScanMode::FieldStart,
        }),
{
    lemma_scan_row_text(row, st);
    let a = csv_scan(row_text(row), 0, st);
    lemma_scan_concat(row_text(row), seq![0x0au8], st);
    let b = csv_scan(seq![0x0au8], 0, a);
    assert(b == csv_step(a, 0x0a)) by {
        lemma_scan_shift(seq![0x0au8], 1, csv_step(a, 0x0a));
        assert(seq![0x0au8].skip(1) =~= Seq::<u8>::empty());
    }
    assert(a.rec.len() > 0);
    assert(a.rec.push(a.field) =~= st.rec + row) by {
        assert((st.rec + row.drop_last()).push(row.last()) =~= st.rec + row);
    }
}

} // verus!

verus! {

proof fn lemma_names_clean(c: int)
    requires
        0 <= c < 15,
    ensures
        clean_cell(col_name(c)),
        col_name(c).len() >= 1,
{
    assert forall|k: int| 0 <= k < col_name(c).len() implies !is_special(
        #[trigger] col_name(c)[k],
    ) by {
        assert(col_name(c)[k] == 0x5fu8 || 0x61 <= col_name(c)[k] <= 0x7a);
    }
}

/// The canonical header as one text line.
pub open spec fn canonical_header_text() -> Seq<u8> {
    row_text(canonical_header()) + seq![0x0au8]
}

/// A clean optional field: absent, or free of special bytes.
pub open spec fn clean_opt(o: Option<Seq<u8>>) -> bool {
    match o {
        None => true,
        Some(v) => clean_cell(v),
    }
}

/// Whether the record's text fields are free of separators, quotes and
/// line ends, so that re-encoding needs no quoting.
pub open spec fn clean_record(d: StopData) -> bool {
    &&& clean_cell(d.stop_id)
    &&& clean_cell(d.stop_name)
    &&& clean_opt(d.stop_code)
    &&& clean_opt(d.tts_stop_name)
    &&& clean_opt(d.stop_desc)
    &&& clean_opt(d.zone_id)
    &&& clean_opt(d.stop_url)
    &&& clean_opt(d.location_type)
    &&& clean_opt(d.parent_station)
    &&& clean_opt(d.stop_timezone)
    &&& clean_opt(d.level_id)
    &&& clean_opt(d.platform_code)
}

proof fn lemma_clean_record_row(d: StopData)
    requires
        -0x80000000 <= d.stop_lat <= 0x7fffffff,
        -0x80000000 <= d.stop_lon <= 0x7fffffff,
        clean_record(d),
    ensures
        clean_row(record_row(d)),
{
    let row = record_row(d);
    lemma_format_coord_bytes(d.stop_lat);
    lemma_format_coord_bytes(d.stop_lon);
    assert(clean_cell(row[5]));
    assert(clean_cell(row[6]));
    assert(clean_cell(row[12])) by {
        match d.wheelchair_boarding {
            None => {},
            Some(c) => {
                lemma_dec_rep_digits(c as int);
                assert forall|k: int| 0 <= k < row[12].len() implies !is_special(
                    #[trigger] row[12][k],
                ) by {
                    assert(is_ascii_digit(dec_rep(c as int)[k]));
                }
            },
        }
    }
    assert forall|i: int| 0 <= i < row.len() implies clean_cell(#[trigger] row[i]) by {
        if i == 1 || i == 3 || i == 4 || i == 7 || i == 8 || i == 9 || i == 10 || i == 11 || i
            == 13 || i == 14 {
            assert(row[i] == opt_cell(
                if i == 1 {
                    d.stop_code
                } else if i == 3 {
                    d.tts_stop_name
                } else if i == 4 {
                    d.stop_desc
                } else if i == 7 {
                    d.zone_id
                } else if i == 8 {
                    d.stop_url
                } else if i == 9 {
                    d.location_type
                } else if i == 10 {
                    d.parent_station
                } else if i == 11 {
                    d.stop_timezone
                } else if i == 13 {
                    d.level_id
                } else {
                    d.platform_code
                },
            ));
        }
    }
}

/// Re-encoding a decoded record as one text line under the canonical
/// header line and parsing the text again yields exactly one record,
/// whose required fields equal the original's.
pub proof fn lemma_text_round_trip(d: StopData)
    requires
        -0x80000000 <= d.stop_lat <= 0x7fffffff,
        -0x80000000 <= d.stop_lon <= 0x7fffffff,
        spec_trim(d.stop_id) == d.stop_id,
        spec_trim(d.stop_name) == d.stop_name,
        clean_record(d),
    ensures
        ({
            let text = canonical_header_text() + spec_encode_row(d);
            &&& spec_parse_stops(text) is Ok
            &&& spec_parse_stops(text)->Ok_0.len() == 1
            &&& spec_parse_stops(text)->Ok_0[0].stop_id == d.stop_id
            &&& spec_parse_stops(text)->Ok_0[0].stop_name == d.stop_name
            &&& spec_parse_stops(text)->Ok_0[0].stop_lat == d.stop_lat
            &&& spec_parse_stops(text)->Ok_0[0].stop_lon == d.stop_lon
        }),
{
    let h = canonical_header();
    let row = record_row(d);
    let text = canonical_header_text() + spec_encode_row(d);
    assert(clean_row(h)) by {
        assert forall|i: int| 0 <= i < h.len() implies clean_cell(#[trigger] h[i]) by {
            lemma_names_clean(i);
        }
    }
    let st0 = init_state();
    lemma_clean_record_row(d);
    lemma_scan_line(h, st0);
    let st1 = csv_scan(row_text(h) + seq![0x0au8], 0, st0);
    assert(st1.recs =~= seq![h]) by {
        assert(Seq::<Seq<u8>>::empty() + h =~= h);
    }
    lemma_scan_line(row, st1);
    let st2 = csv_scan(row_text(row) + seq![0x0au8], 0, st1);
    assert(st2.recs =~= seq![h, row]) by {
        assert(Seq::<Seq<u8>>::empty() + row =~= row);
        assert(seq![h].push(row) =~= seq![h, row]);
    }
    lemma_scan_concat(canonical_header_text(), spec_encode_row(d), st0);
    assert(csv_scan(text, 0, st0) == st2);
    assert(csv_rows(text) == seq![h, row]);
    lemma_row_round_trip(d);
    let d2 = row_to_stop(h, row)->0;
    assert(rows_to_stops(h, seq![h, row], 1, Seq::empty()) == Ok::<Seq<StopData>, ()>(
        seq![d2],
    )) by {
        assert(seq![h, row][1] == row);
        assert(Seq::<StopData>::empty().push(d2) =~= seq![d2]);
        assert(rows_to_stops(h, seq![h, row], 2, seq![d2]) == Ok::<Seq<StopData>, ()>(seq![d2]));
    }
}

} // verus!
