//! Plain protocol records: a signature, a value and a kind tag.
use vstd::prelude::*;
use crate::text::owned;

verus! {

/// An echo of a value.
#[derive(Clone, Debug)]
pub struct Echo {
    pub sign: String,
    pub value: String,
    pub types: String,
}

impl Echo {
    /// An echo of `value`, tagged `echo`.
    pub fn create_echo(sign: String, value: String) -> (e: Self)
        ensures
            e.sign == sign,
            e.value == value,
            e.types@ == "echo"@,
    {
        Echo { sign: sign, value: value, types: owned("echo") }
    }

    /// The fields in order: sign, value, kind.
    pub fn to_vec(self) -> (v: Vec<String>)
        ensures
            v@ == seq![self.sign, self.value, self.types],
    {
        let mut v: Vec<String> = Vec::new();
        v.push(self.sign);
        v.push(self.value);
        v.push(self.types);
        v
    }
}

/// A vote for a value.
#[derive(Clone, Debug)]
pub struct Vote {
    pub sign: String,
    pub value: String,
    pub types: String,
}

impl Vote {
    /// A vote for `value`, tagged `vote`.
    pub fn create_vote(sign: String, value: String) -> (v: Self)
        ensures
            v.sign == sign,
            v.value == value,
            v.types@ == "vote"@,
    {
        Vote { sign: sign, value: value, types: owned("vote") }
    }
}

/// A committee announcement.
#[derive(Clone, Debug)]
pub struct Committee {
    pub sign: String,
    pub value: String,
    pub types: String,
}

impl Committee {
    /// A committee announcement of `value`, tagged `committee`.
    pub fn create_committee(sign: String, value: String) -> (c: Self)
        ensures
            c.sign == sign,
            c.value == value,
            c.types@ == "committee"@,
    {
        Committee { sign: sign, value: value, types: owned("committee") }
    }
}

/// Codewords with their witness and the accumulation value they belong to.
#[derive(Clone, Debug)]
pub struct Codeword {
    pub sign: String,
    pub codewords: Vec<String>,
    pub witness: Vec<u8>,
    pub accumulation_value: String,
    pub index: Vec<usize>,
    pub leaves_len: usize,
    pub types: String,
}

impl Codeword {
    /// A codeword message, tagged `codeword`.
    pub fn create_codeword(
        sign: String,
        codewords: Vec<String>,
        witness: Vec<u8>,
        accumulation_value: String,
        index: Vec<usize>,
        leaves_len: usize,
    ) -> (c: Self)
        ensures
            c.sign == sign,
            c.codewords == codewords,
            c.witness == witness,
            c.accumulation_value == accumulation_value,
            c.index == index,
            c.leaves_len == leaves_len,
            c.types@ == "codeword"@,
    {
        Codeword {
            sign: sign,
            codewords: codewords,
            witness: witness,
            accumulation_value: accumulation_value,
            index: index,
            leaves_len: leaves_len,
            types: owned("codeword"),
        }
    }
}

/// An accumulation value.
#[derive(Clone, Debug)]
pub struct Accum {
    pub sign: String,
    pub accumulation_value: String,
    pub types: String,
}

impl Accum {
    /// An accumulation message for `accumulation_value`, tagged `accum`.
    pub fn create_accum(sign: String, accumulation_value: String) -> (a: Self)
        ensures
            a.sign == sign,
            a.accumulation_value == accumulation_value,
            a.types@ == "accum"@,
    {
        Accum { sign: sign, accumulation_value: accumulation_value, types: owned("accum") }
    }

    /// The fields in order: sign, accumulation value, kind.
    pub fn to_vec(self) -> (v: Vec<String>)
        ensures
            v@ == seq![self.sign, self.accumulation_value, self.types],
    {
        let mut v: Vec<String> = Vec::new();
        v.push(self.sign);
        v.push(self.accumulation_value);
        v.push(self.types);
        v
    }
}

} // verus!
