//! Validated entries of the mapping file: one acceptable address and
//! the ordered names it resolves.  A record exists only for loopback or
//! private addresses; the validating constructor is the single point of entry.

use vstd::prelude::*;

use crate::address::Address;
use crate::address::spec_acceptable;
use crate::address::spec_address_text;
use crate::text::views_of;

verus! {

/// The failure of record validation, carrying the text of an address
/// that is neither loopback nor private.
#[derive(Debug, PartialEq, Eq)]
pub enum RecordError {
    InvalidAddress(String),
}

/// The abstract value of a record: its address and the views of its
/// names, in order.
pub struct RecordModel {
    pub addr: Address,
    pub names: Seq<Seq<char>>,
}

/// One validated entry of the mapping file.  Its address is loopback or
/// private: the validating constructor enforces that, so a record is
/// itself evidence that its address was accepted.
#[derive(Debug, PartialEq, Eq)]
pub struct Record {
    addr: Address,
    names: Vec<String>,
}

impl View for Record {
    type V = RecordModel;

    closed spec fn view(&self) -> RecordModel {
        RecordModel { addr: self.addr, names: views_of(self.names@) }
    }
}

impl Record {
    /// Validating constructor.  Succeeds exactly when the address is
    /// loopback or private, and then keeps the address and the names in
    /// order; fails otherwise with the text of the rejected address.
    pub fn new(addr: Address, names: Vec<String>) -> (r: Result<Record, RecordError>)
        ensures
            match r {
                Ok(rec) => spec_acceptable(addr) && rec@.addr == addr && rec@.names == views_of(
                    names@,
                ),
                Err(e) => !spec_acceptable(addr) && match e {
                    RecordError::InvalidAddress(t) => t@ == spec_address_text(addr),
                },
            },
    {
        if addr.is_acceptable() {
            Ok(Record { addr, names })
        } else {
            Err(RecordError::InvalidAddress(addr.text()))
        }
    }

    /// The record's address.
    pub fn addr(&self) -> (a: Address)
        ensures
            a == self@.addr,
    {
        self.addr
    }

    /// The record's names, in the order of the file.
    pub fn names(&self) -> (ns: &Vec<String>)
        ensures
            views_of(ns@) == self@.names,
    {
        &self.names
    }

    /// A copy with the same abstract value.
    pub fn duplicate(&self) -> (r: Record)
        ensures
            r@ == self@,
    {
        let n = self.names.len();
        let mut names: Vec<String> = Vec::new();
        let mut i: usize = 0;
        proof {
            assert(names@ =~= self.names@.subrange(0, 0));
        }
        while i < n
            invariant
                i <= n,
                n == self.names@.len(),
                names@ == self.names@.subrange(0, i as int),
            decreases n - i,
        {
            names.push(self.names[i].clone());
            proof {
                assert(names@ =~= self.names@.subrange(0, i + 1));
            }
            i += 1;
        }
        proof {
            assert(self.names@.subrange(0, n as int) =~= self.names@);
        }
        Record { addr: self.addr, names }
    }
}

/// Copies of the records, with the same abstract values, in order.
pub fn duplicate_records(records: &Vec<Record>) -> (out: Vec<Record>)
    ensures
        out@.map_values(|x: Record| x@) == records@.map_values(|x: Record| x@),
{
    let n = records.len();
    let mut out: Vec<Record> = Vec::new();
    let mut i: usize = 0;
    proof {
        assert(out@.map_values(|x: Record| x@) =~= records@.map_values(|x: Record| x@).subrange(
            0,
            0,
        ));
    }
    while i < n
        invariant
            i <= n,
            n == records@.len(),
            out@.map_values(|x: Record| x@) == records@.map_values(|x: Record| x@).subrange(
                0,
                i as int,
            ),
        decreases n - i,
    {
        let rec = records[i].duplicate();
        proof {
            assert(rec@ == records@[i as int]@);
        }
        let ghost prev = out@;
        out.push(rec);
        proof {
            assert(out@.map_values(|x: Record| x@) =~~= prev.map_values(|x: Record| x@).push(
                rec@,
            ));
            assert(records@.map_values(|x: Record| x@)[i as int] == records@[i as int]@);
            assert(out@.map_values(|x: Record| x@) =~~= records@.map_values(
                |x: Record| x@,
            ).subrange(0, i + 1));
        }
        i += 1;
    }
    proof {
        let all = records@.map_values(|x: Record| x@);
        assert(all.subrange(0, n as int) =~= all);
    }
    out
}

/// An address that is loopback or private heads a record with any name
/// list, and the record keeps both unchanged; one that is global heads
/// none.
pub proof fn lemma_record_acceptance(addr: Address, names: Vec<String>, r: Result<Record, RecordError>)
    requires
        match r {
            Ok(rec) => spec_acceptable(addr) && rec@.addr == addr && rec@.names == views_of(names@),
            Err(e) => !spec_acceptable(addr) && match e {
                RecordError::InvalidAddress(t) => t@ == spec_address_text(addr),
            },
        },
    ensures
        (addr.spec_is_loopback() || addr.spec_is_private()) <==> r is Ok,
        addr.spec_is_global() <==> r is Err,
{
}

} // verus!
