//! The port plan of direct TCP links between committee members: where a
//! peer stands in the node file, which extra port the port lists give it,
//! and the server and test ports derived from them.
use vstd::prelude::*;
use crate::merkle::strings_view;
use crate::text::{chars_of, contains_chars, contains_seq, decimal, decimal_chars, split, split_chars, str_equal, string_of, views};

verus! {

/// Whether a line of the node file names the peer: in production the
/// peer's address occurs in the line; otherwise the node's id occurs in the
/// line's first `-` field.
pub open spec fn line_names(line: Seq<char>, ip: Seq<char>, id: Seq<char>, prod: bool) -> bool {
    if prod {
        contains_seq(line, ip)
    } else {
        contains_seq(split(line, seq!['-'])[0], id)
    }
}

/// The number of lines before the first line that names the peer (all of
/// them when none does).
pub open spec fn line_index(lines: Seq<Seq<char>>, ip: Seq<char>, id: Seq<char>, prod: bool) -> nat
    decreases lines.len(),
{
    if lines.len() == 0 {
        0
    } else if line_names(lines[0], ip, id, prod) {
        0
    } else {
        1 + line_index(lines.drop_first(), ip, id, prod)
    }
}

/// The position of the peer in the node file.
pub fn node_line_index(lines: &Vec<String>, ip: &String, id: &String, prod: bool) -> (r: usize)
    ensures
        r == line_index(strings_view(lines@), ip@, id@, prod),
{
    let ghost ls = strings_view(lines@);
    let ipc = chars_of(ip.as_str());
    let idc = chars_of(id.as_str());
    let mut dash: Vec<char> = Vec::new();
    dash.push('-');
    assert(dash@ =~= seq!['-']);
    assert(ls.subrange(0, ls.len() as int) =~= ls);
    let mut i: usize = 0;
    while i < lines.len()
        invariant
            i <= lines@.len(),
            ls == strings_view(lines@),
            ipc@ == ip@,
            idc@ == id@,
            dash@ == seq!['-'],
            line_index(ls, ip@, id@, prod) == i + line_index(ls.subrange(i as int, ls.len() as int), ip@, id@, prod),
        decreases lines.len() - i,
    {
        let line = chars_of(lines[i].as_str());
        let ghost rest = ls.subrange(i as int, ls.len() as int);
        assert(rest[0] == line@);
        assert(rest.drop_first() =~= ls.subrange(i + 1, ls.len() as int));
        let names = if prod {
            contains_chars(&line, &ipc)
        } else {
            let parts = split_chars(&line, &dash);
            proof {
                crate::text::lemma_split_len(line@, seq!['-']);
            }
            assert(views(parts@)[0] == parts@[0]@);
            contains_chars(&parts[0], &idc)
        };
        if names {
            return i;
        }
        i = i + 1;
    }
    assert(ls.subrange(i as int, ls.len() as int) =~= Seq::<Seq<char>>::empty());
    i
}

/// The number a client counts for itself in the codeword mode: one more
/// than the lines before its committee's first address.
pub fn client_count(lines: &Vec<String>, first_ip: &String) -> (r: usize)
    requires
        lines@.len() < usize::MAX,
    ensures
        r == 1 + line_index(strings_view(lines@), first_ip@, Seq::empty(), true),
{
    let index = node_line_index(lines, first_ip, &String::new(), true);
    proof {
        lemma_line_index_bound(strings_view(lines@), first_ip@, Seq::<char>::empty(), true);
    }
    index + 1
}

proof fn lemma_line_index_bound(lines: Seq<Seq<char>>, ip: Seq<char>, id: Seq<char>, prod: bool)
    ensures
        line_index(lines, ip, id, prod) <= lines.len(),
    decreases lines.len(),
{
    if lines.len() > 0 {
        lemma_line_index_bound(lines.drop_first(), ip, id, prod);
    }
}

/// The server and test ports of a peer: its extra port plus 5000 past the
/// initial port and past the test port.
pub fn peer_ports(initial_port: u32, test_port: u32, additional_port: u32) -> (r: (u32, u32))
    requires
        initial_port + additional_port + 5000 <= u32::MAX,
        test_port + additional_port + 5000 <= u32::MAX,
    ensures
        r.0 == initial_port + additional_port + 5000,
        r.1 == test_port + additional_port + 5000,
{
    (initial_port + additional_port + 5000, test_port + additional_port + 5000)
}

/// The address text `ip:port`.
pub fn peer_address_text(ip: &String, port: u32) -> (r: String)
    ensures
        r@ == ip@ + seq![':'] + decimal(port as nat),
{
    let mut text = chars_of(ip.as_str());
    text.push(':');
    let digits = decimal_chars(port as u64);
    let mut i: usize = 0;
    while i < digits.len()
        invariant
            i <= digits@.len(),
            text@ == ip@ + seq![':'] + digits@.subrange(0, i as int),
        decreases digits.len() - i,
    {
        text.push(digits[i]);
        i = i + 1;
    }
    assert(digits@.subrange(0, i as int) =~= digits@);
    string_of(&text)
}

/// The files of the server and client port lists: in the `dev` mode
/// (`args[5]`) the node's id (`args[2]`) is part of their names.
pub fn port_list_files(args: &Vec<String>) -> (r: (String, String))
    requires
        args@.len() >= 6,
    ensures
        args@[5]@ == "dev"@ ==> r.0@ == "./server_port_list"@ + args@[2]@ + ".txt"@ && r.1@
            == "./client_port_list"@ + args@[2]@ + ".txt"@,
        args@[5]@ != "dev"@ ==> r.0@ == "./server_port_list{}.txt"@ && r.1@ == "./client_port_list{}.txt"@,
{
    if str_equal(args[5].as_str(), "dev") {
        let mut server = chars_of("./server_port_list");
        let mut client = chars_of("./client_port_list");
        let id = chars_of(args[2].as_str());
        let suffix = chars_of(".txt");
        crate::text::extend_chars(&mut server, &id);
        crate::text::extend_chars(&mut server, &suffix);
        crate::text::extend_chars(&mut client, &id);
        crate::text::extend_chars(&mut client, &suffix);
        (string_of(&server), string_of(&client))
    } else {
        (string_of(&chars_of("./server_port_list{}.txt")), string_of(&chars_of("./client_port_list{}.txt")))
    }
}

} // verus!
