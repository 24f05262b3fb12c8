//! Summary figures over the final record collection: instance counts and
//! byte totals, with overflow reported instead of wrapped, and the display
//! divisor for the chosen block size.

use vstd::prelude::*;

use crate::engine::records_model;
use crate::fileinfo::{Fileinfo, RecordModel};

verus! {

/// Total number of file instances, duplicates included: the sum of every
/// record's path count.
pub open spec fn spec_total_files(records: Seq<RecordModel>) -> int
    decreases records.len(),
{
    if records.len() == 0 {
        0
    } else {
        spec_total_files(records.drop_last()) + records.last().paths.len()
    }
}

/// Total bytes held by all instances, duplicates included: the sum of
/// every record's path count times its length.
pub open spec fn spec_total_bytes(records: Seq<RecordModel>) -> int
    decreases records.len(),
{
    if records.len() == 0 {
        0
    } else {
        spec_total_bytes(records.drop_last()) + records.last().paths.len() * records.last().length
    }
}

/// Total bytes of distinct contents: the sum of every record's length.
pub open spec fn spec_unique_bytes(records: Seq<RecordModel>) -> int
    decreases records.len(),
{
    if records.len() == 0 {
        0
    } else {
        spec_unique_bytes(records.drop_last()) + records.last().length
    }
}

/// Count every file instance, duplicates included; `None` when the total
/// does not fit a `u64`.
pub fn total_file_count(records: &Vec<Fileinfo>) -> (r: Option<u64>)
    ensures
        match r {
            Option::Some(v) => v == spec_total_files(records_model(records@)),
            Option::None => spec_total_files(records_model(records@)) > u64::MAX,
        },
{
    let ghost rm = records_model(records@);
    let mut acc: u64 = 0;
    let mut over = false;
    let mut i: usize = 0;
    while i < records.len()
        invariant
            0 <= i <= records.len(),
            rm == records_model(records@),
            spec_total_files(rm.take(i as int)) >= 0,
            !over ==> acc == spec_total_files(rm.take(i as int)),
            over ==> spec_total_files(rm.take(i as int)) > u64::MAX,
        decreases records.len() - i,
    {
        let n: usize = records[i].file_paths.len();
        assert(n == rm[i as int].paths.len());
        if !over {
            match acc.checked_add(n as u64) {
                Option::Some(a) => {
                    acc = a;
                },
                Option::None => {
                    over = true;
                },
            }
        }
        i += 1;
        proof {
            assert(rm.take(i as int).drop_last() =~= rm.take(i as int - 1));
            assert(rm.take(i as int).last() == rm[i as int - 1]);
        }
    }
    proof {
        assert(rm.take(records@.len() as int) =~= rm);
    }
    if over {
        Option::None
    } else {
        Option::Some(acc)
    }
}

/// Count every byte held by every instance, duplicates included; `None`
/// when the total does not fit a `u64`.
pub fn total_byte_count(records: &Vec<Fileinfo>) -> (r: Option<u64>)
    ensures
        match r {
            Option::Some(v) => v == spec_total_bytes(records_model(records@)),
            Option::None => spec_total_bytes(records_model(records@)) > u64::MAX,
        },
{
    let ghost rm = records_model(records@);
    let mut acc: u64 = 0;
    let mut over = false;
    let mut i: usize = 0;
    while i < records.len()
        invariant
            0 <= i <= records.len(),
            rm == records_model(records@),
            spec_total_bytes(rm.take(i as int)) >= 0,
            !over ==> acc == spec_total_bytes(rm.take(i as int)),
            over ==> spec_total_bytes(rm.take(i as int)) > u64::MAX,
        decreases records.len() - i,
    {
        let n: usize = records[i].file_paths.len();
        let l: u64 = records[i].file_length;
        assert(n == rm[i as int].paths.len());
        assert(l == rm[i as int].length);
        if !over {
            match (n as u64).checked_mul(l) {
                Option::Some(t) => {
                    match acc.checked_add(t) {
                        Option::Some(a) => {
                            acc = a;
                        },
                        Option::None => {
                            over = true;
                        },
                    }
                },
                Option::None => {
                    over = true;
                },
            }
        }
        i += 1;
        proof {
            assert(rm.take(i as int).drop_last() =~= rm.take(i as int - 1));
            assert(rm.take(i as int).last() == rm[i as int - 1]);
        }
    }
    proof {
        assert(rm.take(records@.len() as int) =~= rm);
    }
    if over {
        Option::None
    } else {
        Option::Some(acc)
    }
}

/// Count the bytes of every distinct content once; `None` when the total
/// does not fit a `u64`.
pub fn unique_byte_count(records: &Vec<Fileinfo>) -> (r: Option<u64>)
    ensures
        match r {
            Option::Some(v) => v == spec_unique_bytes(records_model(records@)),
            Option::None => spec_unique_bytes(records_model(records@)) > u64::MAX,
        },
{
    let ghost rm = records_model(records@);
    let mut acc: u64 = 0;
    let mut over = false;
    let mut i: usize = 0;
    while i < records.len()
        invariant
            0 <= i <= records.len(),
            rm == records_model(records@),
            spec_unique_bytes(rm.take(i as int)) >= 0,
            !over ==> acc == spec_unique_bytes(rm.take(i as int)),
            over ==> spec_unique_bytes(rm.take(i as int)) > u64::MAX,
        decreases records.len() - i,
    {
        let l: u64 = records[i].file_length;
        assert(l == rm[i as int].length);
        if !over {
            match acc.checked_add(l) {
                Option::Some(a) => {
                    acc = a;
                },
                Option::None => {
                    over = true;
                },
            }
        }
        i += 1;
        proof {
            assert(rm.take(i as int).drop_last() =~= rm.take(i as int - 1));
            assert(rm.take(i as int).last() == rm[i as int - 1]);
        }
    }
    proof {
        assert(rm.take(records@.len() as int) =~= rm);
    }
    if over {
        Option::None
    } else {
        Option::Some(acc)
    }
}

/// The byte count of one display block for powers 0 through 3: bytes,
/// kilobytes, megabytes, gigabytes.
pub open spec fn spec_block_divisor(power: u32) -> u64 {
    if power == 0 {
        1u64
    } else if power == 1 {
        1024u64
    } else if power == 2 {
        1048576u64
    } else {
        1073741824u64
    }
}

/// 1024 raised to the display power: how many bytes one displayed block
/// stands for.
pub fn block_divisor(power: u32) -> (r: u64)
    requires
        power <= 3,
    ensures
        r == spec_block_divisor(power),
{
    if power == 0 {
        1
    } else if power == 1 {
        1024
    } else if power == 2 {
        1048576
    } else {
        1073741824
    }
}

} // verus!
