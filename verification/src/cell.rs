//! Query result cells and their text.
use vstd::prelude::*;

use crate::text::{
    decimal_spec, push_decimal, push_str, signed_decimal_spec, signed_to_string, string_of,
    unsigned_to_string,
};

verus! {

/// A value read from the store, as the text conversion sees it. Integers of
/// every width (and dates and times, which the store hands over as day,
/// microsecond or tick counts) are held exactly; floating-point and decimal
/// numbers arrive already rendered.
pub enum CellValue {
    Null,
    Boolean(bool),
    Int(i128),
    UInt(u128),
    Text(String),
    /// A blob, by its length in bytes.
    Blob(usize),
    Interval { months: i32, days: i32, nanos: i64 },
    List(Vec<CellValue>),
    Struct(Vec<(String, CellValue)>),
    Pairs(Vec<(CellValue, CellValue)>),
    /// A number rendered by its own formatting.
    Rendered(String),
}

/// The text of a cell.
pub open spec fn cell_text(v: CellValue) -> Seq<char>
    decreases v,
{
    match v {
        CellValue::Null => "NULL"@,
        CellValue::Boolean(b) => if b {
            "true"@
        } else {
            "false"@
        },
        CellValue::Int(n) => signed_decimal_spec(n as int),
        CellValue::UInt(n) => decimal_spec(n as nat),
        CellValue::Text(s) => s@,
        CellValue::Blob(n) => "<blob "@ + decimal_spec(n as nat) + " bytes>"@,
        CellValue::Interval { months, days, nanos } => signed_decimal_spec(months as int) + "mo "@
            + signed_decimal_spec(days as int) + "d "@ + signed_decimal_spec(nanos as int) + "ns"@,
        CellValue::List(items) => "["@ + list_text(items@) + "]"@,
        CellValue::Struct(fields) => "{"@ + fields_text(fields@) + "}"@,
        CellValue::Pairs(pairs) => "{"@ + pairs_text(pairs@) + "}"@,
        CellValue::Rendered(s) => s@,
    }
}

/// The texts of the items, separated by `, `.
pub open spec fn list_text(items: Seq<CellValue>) -> Seq<char>
    decreases items,
{
    if items.len() == 0 {
        Seq::empty()
    } else if items.len() == 1 {
        cell_text(items[0])
    } else {
        list_text(items.drop_last()) + ", "@ + cell_text(items.last())
    }
}

/// `name: value` for each field, separated by `, `.
pub open spec fn fields_text(fields: Seq<(String, CellValue)>) -> Seq<char>
    decreases fields,
{
    if fields.len() == 0 {
        Seq::empty()
    } else if fields.len() == 1 {
        fields[0].0@ + ": "@ + cell_text(fields[0].1)
    } else {
        fields_text(fields.drop_last()) + ", "@ + fields.last().0@ + ": "@ + cell_text(
            fields.last().1,
        )
    }
}

/// `key: value` for each entry, separated by `, `.
pub open spec fn pairs_text(pairs: Seq<(CellValue, CellValue)>) -> Seq<char>
    decreases pairs,
{
    if pairs.len() == 0 {
        Seq::empty()
    } else if pairs.len() == 1 {
        cell_text(pairs[0].0) + ": "@ + cell_text(pairs[0].1)
    } else {
        pairs_text(pairs.drop_last()) + ", "@ + cell_text(pairs.last().0) + ": "@ + cell_text(
            pairs.last().1,
        )
    }
}

/// The text of a cell as the query output shows it.
pub fn value_to_string(v: &CellValue) -> (r: String)
    ensures
        r@ == cell_text(*v),
    decreases v,
{
    match v {
        CellValue::Null => string_of("NULL"),
        CellValue::Boolean(b) => if *b {
            string_of("true")
        } else {
            string_of("false")
        },
        CellValue::Int(n) => signed_to_string(*n),
        CellValue::UInt(n) => unsigned_to_string(*n),
        CellValue::Text(s) => s.clone(),
        CellValue::Blob(n) => {
            let mut out = string_of("<blob ");
            push_decimal(&mut out, *n as u128);
            push_str(&mut out, " bytes>");
            out
        },
        CellValue::Interval { months, days, nanos } => {
            let mut out = signed_to_string(*months as i128);
            push_str(&mut out, "mo ");
            let d = signed_to_string(*days as i128);
            push_str(&mut out, d.as_str());
            push_str(&mut out, "d ");
            let ns = signed_to_string(*nanos as i128);
            push_str(&mut out, ns.as_str());
            push_str(&mut out, "ns");
            out
        },
        CellValue::List(items) => {
            let mut out = string_of("[");
            let inner = list_to_string(items);
            push_str(&mut out, inner.as_str());
            push_str(&mut out, "]");
            out
        },
        CellValue::Struct(fields) => {
            let mut out = string_of("{");
            let inner = fields_to_string(fields);
            push_str(&mut out, inner.as_str());
            push_str(&mut out, "}");
            out
        },
        CellValue::Pairs(pairs) => {
            let mut out = string_of("{");
            let inner = pairs_to_string(pairs);
            push_str(&mut out, inner.as_str());
            push_str(&mut out, "}");
            out
        },
        CellValue::Rendered(s) => s.clone(),
    }
}

fn list_to_string(items: &Vec<CellValue>) -> (r: String)
    ensures
        r@ == list_text(items@),
    decreases items,
{
    let mut out = String::new();
    let mut i: usize = 0;
    assert(out@ =~= list_text(items@.take(0)));
    while i < items.len()
        invariant
            i <= items@.len(),
            out@ == list_text(items@.take(i as int)),
        decreases items.len() - i,
    {
        assert(items@.take(i + 1).drop_last() =~= items@.take(i as int));
        assert(items@.take(i + 1).last() == items@[i as int]);
        if i > 0 {
            push_str(&mut out, ", ");
        } else {
            assert(items@.take(1)[0] == items@[0]);
        }
        let s = value_to_string(&items[i]);
        push_str(&mut out, s.as_str());
        i = i + 1;
    }
    assert(items@.take(items.len() as int) =~= items@);
    out
}

fn fields_to_string(fields: &Vec<(String, CellValue)>) -> (r: String)
    ensures
        r@ == fields_text(fields@),
    decreases fields,
{
    let mut out = String::new();
    let mut i: usize = 0;
    assert(out@ =~= fields_text(fields@.take(0)));
    while i < fields.len()
        invariant
            i <= fields@.len(),
            out@ == fields_text(fields@.take(i as int)),
        decreases fields.len() - i,
    {
        assert(fields@.take(i + 1).drop_last() =~= fields@.take(i as int));
        assert(fields@.take(i + 1).last() == fields@[i as int]);
        let ghost before = out@;
        if i > 0 {
            push_str(&mut out, ", ");
        } else {
            assert(fields@.take(1)[0] == fields@[0]);
        }
        push_str(&mut out, fields[i].0.as_str());
        push_str(&mut out, ": ");
        let s = value_to_string(&fields[i].1);
        push_str(&mut out, s.as_str());
        assert(out@ =~= fields_text(fields@.take(i + 1)));
        i = i + 1;
    }
    assert(fields@.take(fields.len() as int) =~= fields@);
    out
}

fn pairs_to_string(pairs: &Vec<(CellValue, CellValue)>) -> (r: String)
    ensures
        r@ == pairs_text(pairs@),
    decreases pairs,
{
    let mut out = String::new();
    let mut i: usize = 0;
    assert(out@ =~= pairs_text(pairs@.take(0)));
    while i < pairs.len()
        invariant
            i <= pairs@.len(),
            out@ == pairs_text(pairs@.take(i as int)),
        decreases pairs.len() - i,
    {
        assert(pairs@.take(i + 1).drop_last() =~= pairs@.take(i as int));
        assert(pairs@.take(i + 1).last() == pairs@[i as int]);
        if i > 0 {
            push_str(&mut out, ", ");
        } else {
            assert(pairs@.take(1)[0] == pairs@[0]);
        }
        let k = value_to_string(&pairs[i].0);
        push_str(&mut out, k.as_str());
        push_str(&mut out, ": ");
        let s = value_to_string(&pairs[i].1);
        push_str(&mut out, s.as_str());
        assert(out@ =~= pairs_text(pairs@.take(i + 1)));
        i = i + 1;
    }
    assert(pairs@.take(pairs.len() as int) =~= pairs@);
    out
}

} // verus!
