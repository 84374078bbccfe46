//! Turning a discovered address into the writes for one zone.
use crate::address::{addr_text, Address, Family};
use crate::registrar::{Record, RecordType};
use vstd::prelude::*;

verus! {

/// The record type that holds addresses of a family.
pub open spec fn type_for(f: Family) -> RecordType {
    match f {
        Family::V4 => RecordType::A,
        Family::V6 => RecordType::AAAA,
    }
}

pub fn record_type_for(f: Family) -> (r: RecordType)
    ensures
        r == type_for(f),
{
    match f {
        Family::V4 => RecordType::A,
        Family::V6 => RecordType::AAAA,
    }
}

/// The records of `rs` whose type holds addresses of family `f`, in order.
pub open spec fn matching(rs: Seq<Record>, f: Family) -> Seq<Record>
    decreases rs.len(),
{
    if rs.len() == 0 {
        seq![]
    } else if rs.last().record_type == type_for(f) {
        matching(rs.drop_last(), f).push(rs.last())
    } else {
        matching(rs.drop_last(), f)
    }
}

/// `new` is `old` with its content set to the text of `a`, every other field kept.
pub open spec fn overwritten(old: Record, new: Record, a: Address) -> bool {
    &&& new.name == old.name
    &&& new.id == old.id
    &&& new.ttl == old.ttl
    &&& new.record_type == old.record_type
    &&& new.comment == old.comment
    &&& new.proxied == old.proxied
    &&& new.content matches Some(c) && c@ == addr_text(a)
}

/// A write to the registrar, or in dry-run mode the report of one.
pub enum Write {
    Send(Record),
    Report(Record),
}

impl Write {
    pub open spec fn record(self) -> Record {
        match self {
            Write::Send(r) => r,
            Write::Report(r) => r,
        }
    }
}

/// The writes for one zone: each record of the family of `a` gets the text of `a`
/// (whatever it held before); records of any other type get none. In dry-run mode
/// every write is only reported.
pub open spec fn planned(records: Seq<Record>, a: Address, mock: bool, w: Seq<Write>) -> bool {
    let m = matching(records, a.family_of());
    &&& w.len() == m.len()
    &&& forall|k: int|
        0 <= k < w.len() ==> overwritten(m[k], #[trigger] w[k].record(), a) && (w[k] is Report
            <==> mock)
}

/// Text of an address, as a `String`.
pub fn address_string(a: &Address) -> (r: String)
    ensures
        r@ == addr_text(*a),
{
    let body = crate::address::encode(a);
    let mut t: Vec<char> = Vec::new();
    let mut i: usize = 5;
    while i < body.len()
        invariant
            5 <= i <= body@.len(),
            body@.len() >= 5,
            t@ == body@.subrange(5, i as int),
        decreases body@.len() - i,
    {
        t.push(body[i]);
        i = i + 1;
        assert(t@ =~= body@.subrange(5, i as int));
    }
    proof {
        let tok = match *a {
            Address::V4(..) => crate::address::v4_token(),
            Address::V6(..) => crate::address::v6_token(),
        };
        assert(body@ =~= tok + seq![' '] + addr_text(*a));
        assert(t@ =~= addr_text(*a));
    }
    crate::address::string_of(&t)
}

/// Plans the writes for one zone's records.
pub fn plan_updates(records: Vec<Record>, a: &Address, mock: bool) -> (r: Vec<Write>)
    ensures
        planned(records@, *a, mock, r@),
{
    let wanted = record_type_for(a.family());
    let text = address_string(a);
    let ghost orig = records@;
    let ghost f = a.family_of();
    let mut rest = records;
    let mut out: Vec<Write> = Vec::new();
    let ghost mut i: int = 0;
    while rest.len() > 0
        invariant
            0 <= i <= orig.len(),
            rest@ == orig.subrange(i, orig.len() as int),
            wanted == type_for(f),
            f == a.family_of(),
            text@ == addr_text(*a),
            planned(orig.subrange(0, i), *a, mock, out@),
        decreases rest@.len(),
    {
        let rec = rest.remove(0);
        proof {
            assert(rec == orig[i]);
            assert(orig.subrange(0, i + 1).drop_last() =~= orig.subrange(0, i));
            assert(orig.subrange(0, i + 1).last() == orig[i]);
        }
        if rec.record_type == wanted {
            let Record { name, id, ttl, record_type, content: _, comment, proxied } = rec;
            let new_rec = Record {
                name,
                id,
                ttl,
                record_type,
                content: Some(text.clone()),
                comment,
                proxied,
            };
            let w = if mock { Write::Report(new_rec) } else { Write::Send(new_rec) };
            out.push(w);
        }
        proof {
            i = i + 1;
        }
        assert(rest@ =~= orig.subrange(i, orig.len() as int));
    }
    assert(orig.subrange(0, i) =~= orig);
    out
}

proof fn lemma_matching_types(rs: Seq<Record>, f: Family)
    ensures
        forall|k: int|
            0 <= k < matching(rs, f).len() ==> (#[trigger] matching(rs, f)[k]).record_type
                == type_for(f),
        matching(rs, f).len() <= rs.len(),
    decreases rs.len(),
{
    if rs.len() > 0 {
        lemma_matching_types(rs.drop_last(), f);
    }
}

/// Only records of the address's family are written: every planned write holds a
/// record of type `A` for an IPv4 address and `AAAA` for an IPv6 one, with the
/// address's text as content, and there is no more than one write per record.
pub proof fn lemma_family_filter(records: Seq<Record>, a: Address, mock: bool, w: Seq<Write>)
    requires
        planned(records, a, mock, w),
    ensures
        w.len() <= records.len(),
        forall|k: int|
            0 <= k < w.len() ==> (#[trigger] w[k]).record().record_type == type_for(a.family_of())
                && (w[k].record().content matches Some(c) && c@ == addr_text(a)),
{
    lemma_matching_types(records, a.family_of());
    assert forall|k: int| 0 <= k < w.len() implies (#[trigger] w[k]).record().record_type == type_for(
        a.family_of(),
    ) by {
        assert(overwritten(matching(records, a.family_of())[k], w[k].record(), a));
    }
}

/// What one zone's pass comes to: its writes, or why its records could not be had.
pub open spec fn zone_planned(
    fetched: Result<Vec<Record>, String>,
    a: Address,
    mock: bool,
    r: Result<Vec<Write>, String>,
) -> bool {
    match fetched {
        Ok(rs) => r matches Ok(w) && planned(rs@, a, mock, w@),
        Err(e) => r matches Err(m) && m@ == e@,
    }
}

/// Plans every zone on its own: a zone whose records could not be fetched keeps its
/// error, and the other zones are planned as if it were not there.
pub fn plan_zones(fetched: Vec<Result<Vec<Record>, String>>, a: &Address, mock: bool) -> (r: Vec<
    Result<Vec<Write>, String>,
>)
    ensures
        r@.len() == fetched@.len(),
        forall|k: int| 0 <= k < r@.len() ==> zone_planned(fetched@[k], *a, mock, #[trigger] r@[k]),
{
    let ghost orig = fetched@;
    let mut rest = fetched;
    let mut out: Vec<Result<Vec<Write>, String>> = Vec::new();
    while rest.len() > 0
        invariant
            out@.len() + rest@.len() == orig.len(),
            rest@ == orig.subrange(out@.len() as int, orig.len() as int),
            forall|k: int| 0 <= k < out@.len() ==> zone_planned(orig[k], *a, mock, #[trigger] out@[k]),
        decreases rest@.len(),
    {
        let ghost n = out@.len() as int;
        let z = rest.remove(0);
        assert(z == orig[n]);
        let planned_zone = match z {
            Ok(rs) => Ok(plan_updates(rs, a, mock)),
            Err(e) => Err(e),
        };
        out.push(planned_zone);
        assert(rest@ =~= orig.subrange(out@.len() as int, orig.len() as int));
    }
    out
}

} // verus!
