//! The operations of a JSON CRDT patch.
use vstd::prelude::*;
use crate::clock::{Ts, Tss};
use crate::json_equal::JsonBinary;
use crate::nodes::{utf16_count, utf16_len};

verus! {

/// The value of a constant: a reference to another node, a constant JSON
/// value (with binary blobs), or the undefined value.
#[derive(Debug, Clone, PartialEq)]
pub enum ConValue {
    Ref(Ts),
    Val(JsonBinary),
    Undefined,
}

/// One operation of a JSON CRDT patch; `id` is the first timestamp it
/// takes.
#[derive(Debug, Clone, PartialEq)]
pub enum Op {
    /// Creates a constant.
    NewCon { id: Ts, val: ConValue },
    /// Creates a last-write-wins register.
    NewVal { id: Ts },
    /// Creates a last-write-wins object.
    NewObj { id: Ts },
    /// Creates a last-write-wins tuple.
    NewVec { id: Ts },
    /// Creates an RGA string.
    NewStr { id: Ts },
    /// Creates an RGA binary.
    NewBin { id: Ts },
    /// Creates an RGA array.
    NewArr { id: Ts },
    /// Sets a register.
    InsVal { id: Ts, obj: Ts, val: Ts },
    /// Sets keys of an object.
    InsObj { id: Ts, obj: Ts, data: Vec<(String, Ts)> },
    /// Sets elements of a tuple.
    InsVec { id: Ts, obj: Ts, data: Vec<(u8, Ts)> },
    /// Inserts text into a string.
    InsStr { id: Ts, obj: Ts, after: Ts, data: String },
    /// Inserts bytes into a binary.
    InsBin { id: Ts, obj: Ts, after: Ts, data: Vec<u8> },
    /// Inserts elements into an array.
    InsArr { id: Ts, obj: Ts, after: Ts, data: Vec<Ts> },
    /// Updates an element of an array.
    UpdArr { id: Ts, obj: Ts, after: Ts, val: Ts },
    /// Deletes ranges of an RGA node.
    Del { id: Ts, obj: Ts, what: Vec<Tss> },
    /// Takes `len` timestamps and does nothing.
    Nop { id: Ts, len: u64 },
}

impl Op {
    /// The operation's id.
    pub open spec fn spec_id(&self) -> Ts {
        match self {
            Op::NewCon { id, .. } => *id,
            Op::NewVal { id } => *id,
            Op::NewObj { id } => *id,
            Op::NewVec { id } => *id,
            Op::NewStr { id } => *id,
            Op::NewBin { id } => *id,
            Op::NewArr { id } => *id,
            Op::InsVal { id, .. } => *id,
            Op::InsObj { id, .. } => *id,
            Op::InsVec { id, .. } => *id,
            Op::InsStr { id, .. } => *id,
            Op::InsBin { id, .. } => *id,
            Op::InsArr { id, .. } => *id,
            Op::UpdArr { id, .. } => *id,
            Op::Del { id, .. } => *id,
            Op::Nop { id, .. } => *id,
        }
    }

    /// The number of timestamps the operation takes: the UTF-16 length of
    /// inserted text, the number of inserted bytes or elements, the length
    /// of a no-op, and one otherwise.
    pub open spec fn spec_span(&self) -> nat {
        match self {
            Op::InsStr { data, .. } => utf16_len(data@),
            Op::InsBin { data, .. } => data@.len(),
            Op::InsArr { data, .. } => data@.len(),
            Op::Nop { len, .. } => *len as nat,
            _ => 1,
        }
    }

    /// The operation's short name.
    pub open spec fn spec_name(&self) -> Seq<char> {
        match self {
            Op::NewCon { .. } => "new_con"@,
            Op::NewVal { .. } => "new_val"@,
            Op::NewObj { .. } => "new_obj"@,
            Op::NewVec { .. } => "new_vec"@,
            Op::NewStr { .. } => "new_str"@,
            Op::NewBin { .. } => "new_bin"@,
            Op::NewArr { .. } => "new_arr"@,
            Op::InsVal { .. } => "ins_val"@,
            Op::InsObj { .. } => "ins_obj"@,
            Op::InsVec { .. } => "ins_vec"@,
            Op::InsStr { .. } => "ins_str"@,
            Op::InsBin { .. } => "ins_bin"@,
            Op::InsArr { .. } => "ins_arr"@,
            Op::UpdArr { .. } => "upd_arr"@,
            Op::Del { .. } => "del"@,
            Op::Nop { .. } => "nop"@,
        }
    }

    pub fn id(&self) -> (r: Ts)
        ensures
            r == self.spec_id(),
    {
        match self {
            Op::NewCon { id, .. } => *id,
            Op::NewVal { id } => *id,
            Op::NewObj { id } => *id,
            Op::NewVec { id } => *id,
            Op::NewStr { id } => *id,
            Op::NewBin { id } => *id,
            Op::NewArr { id } => *id,
            Op::InsVal { id, .. } => *id,
            Op::InsObj { id, .. } => *id,
            Op::InsVec { id, .. } => *id,
            Op::InsStr { id, .. } => *id,
            Op::InsBin { id, .. } => *id,
            Op::InsArr { id, .. } => *id,
            Op::UpdArr { id, .. } => *id,
            Op::Del { id, .. } => *id,
            Op::Nop { id, .. } => *id,
        }
    }

    pub fn span(&self) -> (r: u64)
        requires
            self matches Op::InsStr { data, .. } ==> utf16_len(data@) <= u64::MAX,
        ensures
            r == self.spec_span(),
    {
        match self {
            Op::InsStr { data, .. } => utf16_count(data.as_str()),
            Op::InsBin { data, .. } => data.len() as u64,
            Op::InsArr { data, .. } => data.len() as u64,
            Op::Nop { len, .. } => *len,
            _ => 1,
        }
    }

    pub fn name(&self) -> (r: &'static str)
        ensures
            r@ == self.spec_name(),
    {
        proof {
            reveal_strlit("new_con");
            reveal_strlit("new_val");
            reveal_strlit("new_obj");
            reveal_strlit("new_vec");
            reveal_strlit("new_str");
            reveal_strlit("new_bin");
            reveal_strlit("new_arr");
            reveal_strlit("ins_val");
            reveal_strlit("ins_obj");
            reveal_strlit("ins_vec");
            reveal_strlit("ins_str");
            reveal_strlit("ins_bin");
            reveal_strlit("ins_arr");
            reveal_strlit("upd_arr");
            reveal_strlit("del");
            reveal_strlit("nop");
        }
        match self {
            Op::NewCon { .. } => "new_con",
            Op::NewVal { .. } => "new_val",
            Op::NewObj { .. } => "new_obj",
            Op::NewVec { .. } => "new_vec",
            Op::NewStr { .. } => "new_str",
            Op::NewBin { .. } => "new_bin",
            Op::NewArr { .. } => "new_arr",
            Op::InsVal { .. } => "ins_val",
            Op::InsObj { .. } => "ins_obj",
            Op::InsVec { .. } => "ins_vec",
            Op::InsStr { .. } => "ins_str",
            Op::InsBin { .. } => "ins_bin",
            Op::InsArr { .. } => "ins_arr",
            Op::UpdArr { .. } => "upd_arr",
            Op::Del { .. } => "del",
            Op::Nop { .. } => "nop",
        }
    }
}

} // verus!
