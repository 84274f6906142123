//! The protocol messages exchanged by committee members, and the envelope
//! that carries them between peers.
use vstd::prelude::*;
use crate::text::{debug_bytes, debug_bytes_chars, decimal, decimal_chars, owned, replace, replace_chars, string_of};

verus! {

/// A peer's network address: host and port.
#[derive(Clone, Debug)]
pub struct PeerAddress {
    pub host: String,
    pub port: u16,
}

/// A node's view of its position in the recursion: the level and the
/// addresses of the committee it belongs to at that level.
pub struct InternalState {
    pub level: usize,
    pub addresses: Vec<PeerAddress>,
}

impl InternalState {
    /// The level.
    pub fn get_level(&self) -> (l: usize)
        ensures
            l == self.level,
    {
        self.level
    }

    /// The committee's addresses.
    pub fn _get_addresses(&self) -> (a: &Vec<PeerAddress>)
        ensures
            a == &self.addresses,
    {
        &self.addresses
    }
}

/// A message with its sender, its recipients and the recursion level it
/// belongs to.
#[derive(Clone, Debug)]
pub struct NetworkMessage {
    pub sender: PeerAddress,
    pub addresses: Vec<PeerAddress>,
    pub message: ConsensusMessage,
    pub level: usize,
}

/// The kinds of protocol message.
#[derive(Clone, Debug)]
pub enum ConsensusMessage {
    EchoMessage(Echo),
    ForwardMessage(Forward),
    VoteMessage(Vote),
    CommitteeMessage(Committee),
    CodewordMessage(Codeword),
    CodewordRetrieveMessage(CodewordRetrieve),
    AccumMessage(Accum),
    ProposeMessage(Propose),
}

/// A message broadcast in a round.
#[derive(Clone, Debug)]
pub struct BroadcastMessage {
    pub sender: usize,
    pub content: String,
    pub round: usize,
}

/// The echo of a value in graded agreement.
#[derive(Clone, Debug)]
pub struct Echo {
    pub sign: String,
    pub value: String,
    pub types: String,
}

impl Echo {
    /// An echo of `value`, tagged `echo`.
    pub fn create_echo(sign: String, value: String) -> (e: Self)
        ensures
            e.sign == sign,
            e.value == value,
            e.types@ == "echo"@,
    {
        Echo { sign: sign, value: value, types: owned("echo") }
    }

    /// The fields in order: sign, value, kind.
    pub fn to_vec(self) -> (v: Vec<String>)
        ensures
            v@ == seq![self.sign, self.value, self.types],
    {
        let mut v: Vec<String> = Vec::new();
        v.push(self.sign);
        v.push(self.value);
        v.push(self.types);
        v
    }
}

/// The forwarding of a value that enough echoes supported.
#[derive(Clone, Debug)]
pub struct Forward {
    pub sign: String,
    pub value: String,
    pub types: String,
}

impl Forward {
    /// A forward of `value`, tagged `forward`.
    pub fn create_forward(sign: String, value: String) -> (f: Self)
        ensures
            f.sign == sign,
            f.value == value,
            f.types@ == "forward"@,
    {
        Forward { sign: sign, value: value, types: owned("forward") }
    }

    /// The fields in order: sign, value, kind.
    pub fn to_vec(self) -> (v: Vec<String>)
        ensures
            v@ == seq![self.sign, self.value, self.types],
    {
        let mut v: Vec<String> = Vec::new();
        v.push(self.sign);
        v.push(self.value);
        v.push(self.types);
        v
    }
}

/// A vote of the first or second voting round (`no`).
#[derive(Clone, Debug)]
pub struct Vote {
    pub sign: String,
    pub value: String,
    pub no: usize,
    pub types: String,
}

impl Vote {
    /// A vote for `value` in round `no`, tagged `vote`.
    pub fn create_vote(sign: String, no: usize, value: String) -> (v: Self)
        ensures
            v.sign == sign,
            v.value == value,
            v.no == no,
            v.types@ == "vote"@,
    {
        Vote { sign: sign, value: value, no: no, types: owned("vote") }
    }

    /// The fields in order: sign, value, kind.
    pub fn to_vec(self) -> (v: Vec<String>)
        ensures
            v@ == seq![self.sign, self.value, self.types],
    {
        let mut v: Vec<String> = Vec::new();
        v.push(self.sign);
        v.push(self.value);
        v.push(self.types);
        v
    }
}

/// A codeword sent to a committee member after committee selection.
#[derive(Clone, Debug)]
pub struct Committee {
    pub sign: String,
    pub codewords: String,
    pub witness: Vec<u8>,
    pub value: String,
    pub index: String,
    pub leaves_len: usize,
    pub part: usize,
    pub types: String,
}

impl Committee {
    /// A committee codeword message, tagged `committee`.
    pub fn create_committee(
        sign: String,
        codewords: String,
        witness: Vec<u8>,
        value: String,
        index: String,
        leaves_len: usize,
        part: usize,
    ) -> (c: Self)
        ensures
            c.sign == sign,
            c.codewords == codewords,
            c.witness == witness,
            c.value == value,
            c.index == index,
            c.leaves_len == leaves_len,
            c.part == part,
            c.types@ == "committee"@,
    {
        Committee {
            sign: sign,
            codewords: codewords,
            witness: witness,
            value: value,
            index: index,
            leaves_len: leaves_len,
            part,
            types: owned("committee"),
        }
    }
}

/// A codeword with its witness, the accumulation value it belongs to, its
/// index and the size of the tree.
#[derive(Clone, Debug)]
pub struct Codeword {
    pub sign: String,
    pub codewords: String,
    pub witness: Vec<u8>,
    pub value: String,
    pub index: String,
    pub leaves_len: usize,
    pub part: usize,
    pub types: String,
}

impl Codeword {
    /// A codeword message with the given fields.
    pub fn create_codeword(
        sign: String,
        codewords: String,
        witness: Vec<u8>,
        value: String,
        index: String,
        leaves_len: usize,
        part: usize,
        types: String,
    ) -> (c: Self)
        ensures
            c.sign == sign,
            c.codewords == codewords,
            c.witness == witness,
            c.value == value,
            c.index == index,
            c.leaves_len == leaves_len,
            c.part == part,
            c.types == types,
    {
        Codeword {
            sign: sign,
            codewords: codewords,
            witness: witness,
            value: value,
            index: index,
            leaves_len: leaves_len,
            part,
            types: types,
        }
    }

    /// The fields as text, in order: sign, codewords, witness (written
    /// `[1; 2; 3]`), value, index, number of leaves, kind.
    pub fn to_vec(self) -> (v: Vec<String>)
        ensures
            v@.len() == 7,
            v@[0] == self.sign,
            v@[1] == self.codewords,
            v@[2]@ == witness_text(self.witness@),
            v@[3] == self.value,
            v@[4] == self.index,
            v@[5]@ == decimal(self.leaves_len as nat),
            v@[6] == self.types,
    {
        let written = debug_bytes_chars(&self.witness);
        let mut from: Vec<char> = Vec::new();
        from.push(',');
        from.push(' ');
        let mut to: Vec<char> = Vec::new();
        to.push(';');
        to.push(' ');
        assert(from@ =~= seq![',', ' ']);
        assert(to@ =~= seq![';', ' ']);
        let modified = replace_chars(&written, &from, &to);
        let leaves = string_of(&decimal_chars(self.leaves_len as u64));
        let mut v: Vec<String> = Vec::new();
        v.push(self.sign);
        v.push(self.codewords);
        v.push(string_of(&modified));
        v.push(self.value);
        v.push(self.index);
        v.push(leaves);
        v.push(self.types);
        v
    }
}

/// A witness written as `Codeword::to_vec` writes it: the byte list with
/// `; ` between the bytes.
pub open spec fn witness_text(w: Seq<u8>) -> Seq<char> {
    replace(debug_bytes(w), seq![',', ' '], seq![';', ' '])
}

/// A request carrying a retrieved codeword.
#[derive(Clone, Debug)]
pub struct CodewordRetrieve {
    pub sign: String,
    pub codewords: String,
    pub part: usize,
    pub communication_type: String,
    pub types: String,
}

impl CodewordRetrieve {
    /// A retrieve message, tagged `codewordretrieve`.
    pub fn create_codeword_retrieve(sign: String, codewords: String, part: usize, communication_type: String) -> (c: Self)
        ensures
            c.sign == sign,
            c.codewords == codewords,
            c.part == part,
            c.communication_type == communication_type,
            c.types@ == "codewordretrieve"@,
    {
        CodewordRetrieve {
            sign: sign,
            codewords: codewords,
            part: part,
            communication_type: communication_type,
            types: owned("codewordretrieve"),
        }
    }
}

/// An accumulation value.
#[derive(Clone, Debug)]
pub struct Accum {
    pub sign: String,
    pub value: String,
    pub types: String,
}

impl Accum {
    /// An accumulation message for `value`, tagged `accum`.
    pub fn create_accum(sign: String, value: String) -> (a: Self)
        ensures
            a.sign == sign,
            a.value == value,
            a.types@ == "accum"@,
    {
        Accum { sign: sign, value: value, types: owned("accum") }
    }

    /// The fields in order: sign, value, kind.
    pub fn to_vec(self) -> (v: Vec<String>)
        ensures
            v@ == seq![self.sign, self.value, self.types],
    {
        let mut v: Vec<String> = Vec::new();
        v.push(self.sign);
        v.push(self.value);
        v.push(self.types);
        v
    }
}

/// The proposal of an agreed value.
#[derive(Clone, Debug)]
pub struct Propose {
    pub sign: String,
    pub value: String,
    pub types: String,
}

impl Propose {
    /// A proposal of `value`, tagged `propose`.
    pub fn create_propose(sign: String, value: String) -> (p: Self)
        ensures
            p.sign == sign,
            p.value == value,
            p.types@ == "propose"@,
    {
        Propose { sign: sign, value: value, types: owned("propose") }
    }

    /// The fields in order: sign, value, kind.
    pub fn to_vec(self) -> (v: Vec<String>)
        ensures
            v@ == seq![self.sign, self.value, self.types],
    {
        let mut v: Vec<String> = Vec::new();
        v.push(self.sign);
        v.push(self.value);
        v.push(self.types);
        v
    }
}

} // verus!
