//! A node's configuration: who its peers are, and what it is called.

use crate::node::texts_view;
use crate::state::text_view;
use vstd::prelude::*;
use vstd::string::{StrSliceExecFns, StringExecFns};

verus! {

/// The pieces of `text` between the separators.
pub open spec fn pieces(text: Seq<char>, separator: char) -> Seq<Seq<char>>
    decreases text.len(),
{
    if text.contains(separator) {
        let at = text.index_of_first(separator)->0;
        if 0 <= at < text.len() {
            seq![text.take(at)] + pieces(text.skip(at + 1), separator)
        } else {
            seq![text]
        }
    } else {
        seq![text]
    }
}

/// The addresses in a comma-separated list, without the empty ones.
pub open spec fn peer_list(text: Seq<char>) -> Seq<Seq<char>> {
    pieces(text, ',').filter(|p: Seq<char>| p.len() > 0)
}

/// Whether the character has the Unicode property `White_Space`.
pub open spec fn white_space(c: char) -> bool {
    let code = c as u32;
    ||| 0x9 <= code <= 0xd
    ||| code == 0x20 || code == 0x85 || code == 0xa0 || code == 0x1680
    ||| 0x2000 <= code <= 0x200a
    ||| code == 0x2028 || code == 0x2029 || code == 0x202f || code == 0x205f || code == 0x3000
}

/// `char::is_whitespace` says whether a character has the property `White_Space`,
/// which the Unicode Character Database gives to the characters listed in
/// [`white_space`].
pub assume_specification[ char::is_whitespace ](c: char) -> (yes: bool)
    ensures
        yes == white_space(c),
;

/// How many leading characters are white space.
pub open spec fn leading_space(text: Seq<char>) -> nat
    decreases text.len(),
{
    if text.len() > 0 && white_space(text[0]) {
        1 + leading_space(text.skip(1))
    } else {
        0
    }
}

/// The text without trailing white space.
pub open spec fn trimmed_end(text: Seq<char>) -> Seq<char>
    decreases text.len(),
{
    if text.len() > 0 && white_space(text.last()) {
        trimmed_end(text.drop_last())
    } else {
        text
    }
}

/// The text without white space around it.
pub open spec fn trimmed(text: Seq<char>) -> Seq<char> {
    trimmed_end(text.skip(leading_space(text) as int))
}

/// The text, if there is one and it is not empty.
pub open spec fn nonempty(text: Option<Seq<char>>) -> Option<Seq<char>> {
    match text {
        Some(t) => if t.len() > 0 {
            Some(t)
        } else {
            None
        },
        None => None,
    }
}

/// The name with the default port, unless it has a port already.
pub open spec fn with_port(name: Seq<char>) -> Seq<char> {
    if name.contains(':') {
        name
    } else {
        name + ":7878"@
    }
}

/// A node's dialable address: from its own setting, else from the host's name in
/// the environment, else from the host name file.
pub open spec fn node_address(
    setting: Option<Seq<char>>,
    hostname: Option<Seq<char>>,
    hostname_file: Option<Seq<char>>,
) -> Seq<char> {
    let from_file = match hostname_file {
        Some(t) => nonempty(Some(trimmed(t))),
        None => None,
    };
    with_port(
        if nonempty(setting) is Some {
            setting->0
        } else if nonempty(hostname) is Some {
            hostname->0
        } else if from_file is Some {
            from_file->0
        } else {
            "unknown-node"@
        },
    )
}

/// The first address of a list is what stands before the first comma, unless that is
/// empty; the others are those of the rest. A list without a comma is one address, or
/// none.
pub proof fn law_list_is_read_comma_by_comma(first: Seq<char>, rest: Seq<char>)
    requires
        !first.contains(','),
    ensures
        first.len() > 0 ==> {
            &&& peer_list(first) == seq![first]
            &&& peer_list(first + seq![','] + rest) == seq![first] + peer_list(rest)
        },
        first.len() == 0 ==> {
            &&& peer_list(first).len() == 0
            &&& peer_list(first + seq![','] + rest) == peer_list(rest)
        },
{
    let pred = |p: Seq<char>| p.len() > 0;
    let text = first + seq![','] + rest;
    let at = first.len() as int;
    assert(text[at] == ',');
    assert(text.contains(','));
    text.index_of_first_ensures(',');
    let found = text.index_of_first(',')->0;
    assert(found == at) by {
        if found < at {
            assert(first[found] == ',');
        }
    }
    assert(text.take(at) =~= first);
    assert(text.skip(at + 1) =~= rest);
    assert(pieces(text, ',') == seq![first] + pieces(rest, ','));
    Seq::filter_distributes_over_add(seq![first], pieces(rest, ','), pred);
    let one = seq![first];
    assert(one.drop_last() =~= Seq::empty());
    reveal_with_fuel(Seq::filter, 2);
    if first.len() > 0 {
        assert(one.filter(pred) =~= one);
    } else {
        assert(one.filter(pred) =~= Seq::empty());
        assert(one.filter(pred) + peer_list(rest) =~= peer_list(rest));
    }
}

/// The names with commas between them.
pub open spec fn listed(names: Seq<Seq<char>>) -> Seq<char>
    decreases names.len(),
{
    if names.len() == 0 {
        Seq::empty()
    } else if names.len() == 1 {
        names[0]
    } else {
        names[0] + seq![','] + listed(names.skip(1))
    }
}

/// A list of names is read back as it was written: all of them, in order.
pub proof fn law_list_is_read_back(names: Seq<Seq<char>>)
    requires
        forall|i: int|
            0 <= i < names.len() ==> (#[trigger] names[i]).len() > 0 && !names[i].contains(','),
    ensures
        peer_list(listed(names)) == names,
    decreases names.len(),
{
    if names.len() == 0 {
        law_list_is_read_comma_by_comma(Seq::empty(), Seq::empty());
        assert(peer_list(listed(names)) =~= names);
    } else {
        let rest = names.skip(1);
        assert forall|i: int| 0 <= i < rest.len() implies (#[trigger] rest[i]).len() > 0
            && !rest[i].contains(',') by {
            assert(rest[i] == names[i + 1]);
        }
        law_list_is_read_back(rest);
        law_list_is_read_comma_by_comma(names[0], listed(rest));
        assert(seq![names[0]] + rest =~= names);
    }
}

/// Trimming takes white space from both ends, all of it and nothing else: what is left
/// is the part between two marks, outside of which there is only white space, and it
/// neither starts nor ends with white space.
pub proof fn law_trimming_takes_the_space_around(text: Seq<char>) -> (marks: (int, int))
    ensures
        0 <= marks.0 <= marks.1 <= text.len(),
        trimmed(text) == text.subrange(marks.0, marks.1),
        forall|i: int| 0 <= i < marks.0 ==> white_space(#[trigger] text[i]),
        forall|i: int| marks.1 <= i < text.len() ==> white_space(#[trigger] text[i]),
        trimmed(text).len() > 0 ==> !white_space(trimmed(text)[0]) && !white_space(
            trimmed(text).last(),
        ),
{
    lemma_space_leads(text);
    let from = leading_space(text) as int;
    let rest = text.skip(from);
    let len = lemma_space_trails(rest);
    assert(trimmed(text) =~= text.subrange(from, from + len));
    assert forall|i: int| from + len <= i < text.len() implies white_space(
        #[trigger] text[i],
    ) by {
        assert(rest[i - from] == text[i]);
    }
    if len > 0 {
        assert(trimmed(text)[0] == text[from]);
    }
    (from, from + len)
}

proof fn lemma_space_leads(text: Seq<char>)
    ensures
        leading_space(text) <= text.len(),
        forall|i: int| 0 <= i < leading_space(text) ==> white_space(#[trigger] text[i]),
        leading_space(text) < text.len() ==> !white_space(text[leading_space(text) as int]),
    decreases text.len(),
{
    if text.len() > 0 && white_space(text[0]) {
        let rest = text.skip(1);
        lemma_space_leads(rest);
        assert forall|i: int| 0 <= i < leading_space(text) implies white_space(
            #[trigger] text[i],
        ) by {
            if i > 0 {
                assert(rest[i - 1] == text[i]);
            }
        }
        if leading_space(rest) < rest.len() {
            assert(rest[leading_space(rest) as int] == text[leading_space(text) as int]);
        }
    }
}

proof fn lemma_space_trails(text: Seq<char>) -> (len: int)
    ensures
        0 <= len <= text.len(),
        trimmed_end(text) == text.take(len),
        forall|i: int| len <= i < text.len() ==> white_space(#[trigger] text[i]),
        len > 0 ==> !white_space(text[len - 1]),
    decreases text.len(),
{
    if text.len() > 0 && white_space(text.last()) {
        let rest = text.drop_last();
        let len = lemma_space_trails(rest);
        assert(text.take(len) =~= rest.take(len));
        assert forall|i: int| len <= i < text.len() implies white_space(#[trigger] text[i]) by {
            if i < rest.len() {
                assert(rest[i] == text[i]);
            }
        }
        len
    } else {
        assert(text.take(text.len() as int) =~= text);
        text.len() as int
    }
}

/// The node's own setting decides if there is one, whatever the host is called; without
/// it the host's name in the environment does, and then the host name file. A setting
/// that is empty is none.
pub proof fn law_own_setting_comes_first(
    name: Seq<char>,
    hostname: Option<Seq<char>>,
    hostname_file: Option<Seq<char>>,
)
    requires
        name.len() > 0,
    ensures
        node_address(Some(name), hostname, hostname_file) == with_port(name),
        node_address(None, Some(name), hostname_file) == with_port(name),
        node_address(Some(seq![]), Some(name), hostname_file) == with_port(name),
        node_address(Some(seq![]), hostname, hostname_file) == node_address(
            None,
            hostname,
            hostname_file,
        ),
        node_address(None, Some(seq![]), hostname_file) == node_address(
            None,
            None,
            hostname_file,
        ),
        hostname_file matches Some(text) && trimmed(text).len() > 0 ==> node_address(
            None,
            None,
            hostname_file,
        ) == with_port(trimmed(hostname_file->0)),
        hostname_file matches Some(text) && trimmed(text).len() == 0 ==> node_address(
            None,
            None,
            hostname_file,
        ) == node_address(None, None, None),
        node_address(None, None, None) == with_port("unknown-node"@),
{
}

/// An address that names a port stays as it is, and any other is given the default one;
/// a port is given only once.
pub proof fn law_port_is_given_once(name: Seq<char>)
    ensures
        name.contains(':') ==> with_port(name) == name,
        !name.contains(':') ==> with_port(name) == name + ":7878"@,
        with_port(name).contains(':'),
        with_port(with_port(name)) == with_port(name),
{
    reveal_strlit(":7878");
    if !name.contains(':') {
        assert(with_port(name)[name.len() as int] == ':');
    }
}

/// The first position from `from` on at which `text` holds `c`, or the end.
fn find_char(text: &str, c: char, from: usize, len: usize) -> (at: usize)
    requires
        len == text@.len(),
        from <= len,
    ensures
        from <= at <= len,
        forall|i: int| from <= i < at ==> text@[i] != c,
        at < len ==> text@[at as int] == c,
{
    let mut at: usize = from;
    while at < len
        invariant
            len == text@.len(),
            from <= at <= len,
            forall|i: int| from <= i < at ==> text@[i] != c,
        decreases len - at,
    {
        if text.get_char(at) == c {
            return at;
        }
        at += 1;
    }
    at
}

/// The peers in a comma-separated list of addresses.
pub fn parse_peers(text: &str) -> (peers: Vec<String>)
    ensures
        texts_view(peers@) == peer_list(text@),
{
    let len: usize = text.unicode_len();
    let ghost all = text@;
    let ghost keep = |p: Seq<char>| p.len() > 0;
    let mut peers: Vec<String> = Vec::new();
    let mut from: usize = 0;
    proof {
        assert(texts_view(peers@) =~= Seq::empty());
        assert(all.skip(0) =~= all);
        assert(Seq::<Seq<char>>::empty() + peer_list(all) =~= peer_list(all));
    }
    loop
        invariant_except_break
            texts_view(peers@) + peer_list(all.skip(from as int)) == peer_list(all),
        invariant
            all == text@,
            len == text@.len(),
            from <= len,
            keep == (|p: Seq<char>| p.len() > 0),
        ensures
            texts_view(peers@) == peer_list(all),
        decreases len - from,
    {
        let at: usize = find_char(text, ',', from, len);
        let ghost rest = all.skip(from as int);
        let ghost piece = all.subrange(from as int, at as int);
        let ghost before = texts_view(peers@);
        proof {
            lemma_first_piece(rest, ',', at - from);
            assert(rest.take(at - from) =~= piece);
            if at < len {
                assert(rest.skip(at - from + 1) =~= all.skip(at + 1));
                assert(pieces(rest, ',') == seq![piece] + pieces(all.skip(at + 1), ','));
                Seq::filter_distributes_over_add(seq![piece], pieces(all.skip(at + 1), ','), keep);
            } else {
                assert(rest =~= piece);
                assert(pieces(rest, ',') == seq![piece]);
            }
            lemma_filter_one(piece);
        }
        if at > from {
            let peer = text.substring_char(from, at).to_owned();
            peers.push(peer);
            assert(texts_view(peers@) =~= before.push(piece));
        }
        assert(texts_view(peers@) =~= before + seq![piece].filter(keep));
        if at >= len {
            break;
        }
        proof {
            let tail = peer_list(all.skip(at + 1));
            assert(before + (seq![piece].filter(keep) + tail) =~= (before + seq![piece].filter(keep))
                + tail);
        }
        from = at + 1;
    }
    peers
}

proof fn lemma_filter_one(piece: Seq<char>)
    ensures
        seq![piece].filter(|p: Seq<char>| p.len() > 0) == (if piece.len() > 0 {
            seq![piece]
        } else {
            Seq::empty()
        }),
{
    let keep = |p: Seq<char>| p.len() > 0;
    reveal_with_fuel(Seq::filter, 2);
    assert(seq![piece].drop_last() =~= Seq::<Seq<char>>::empty());
    assert(Seq::<Seq<char>>::empty().push(piece) =~= seq![piece]);
}

/// Where the first piece ends.
proof fn lemma_first_piece(text: Seq<char>, separator: char, at: int)
    requires
        0 <= at <= text.len(),
        forall|i: int| 0 <= i < at ==> text[i] != separator,
        at < text.len() ==> text[at] == separator,
    ensures
        at < text.len() ==> pieces(text, separator) == seq![text.take(at)] + pieces(
            text.skip(at + 1),
            separator,
        ),
        at == text.len() ==> pieces(text, separator) == seq![text],
{
    if at < text.len() {
        text.index_of_first_ensures(separator);
        assert(text.contains(separator));
    }
}

/// The text without white space around it.
fn trim(text: &str) -> (short: String)
    ensures
        short@ == trimmed(text@),
{
    let len: usize = text.unicode_len();
    let mut from: usize = 0;
    assert(text@.skip(0) =~= text@);
    while from < len && text.get_char(from).is_whitespace()
        invariant
            len == text@.len(),
            from <= len,
            leading_space(text@) == from + leading_space(text@.skip(from as int)),
        decreases len - from,
    {
        assert(text@.skip(from as int).skip(1) =~= text@.skip(from + 1));
        from += 1;
    }
    let ghost rest = text@.skip(from as int);
    let mut to: usize = len;
    assert(rest =~= text@.subrange(from as int, to as int));
    while to > from && text.get_char(to - 1).is_whitespace()
        invariant
            len == text@.len(),
            from <= to <= len,
            trimmed_end(rest) == trimmed_end(text@.subrange(from as int, to as int)),
        decreases to,
    {
        assert(text@.subrange(from as int, to as int).drop_last() =~= text@.subrange(
            from as int,
            to - 1,
        ));
        to -= 1;
    }
    text.substring_char(from, to).to_owned()
}

/// This node's dialable address, used as its identity in votes and as the
/// redirect a follower hands a client.
pub fn resolve_node_id(
    setting: Option<String>,
    hostname: Option<String>,
    hostname_file: Option<String>,
) -> (id: String)
    ensures
        id@ == node_address(text_view(setting), text_view(hostname), text_view(hostname_file)),
{
    let from_file: Option<String> = match hostname_file {
        Some(text) => Some(trim(text.as_str())),
        None => None,
    };
    let mut raw: String = match (first_nonempty(setting), first_nonempty(hostname), first_nonempty(
        from_file,
    )) {
        (Some(name), _, _) => name,
        (None, Some(name), _) => name,
        (None, None, Some(name)) => name,
        (None, None, None) => "unknown-node".to_owned(),
    };
    let len: usize = raw.as_str().unicode_len();
    let at: usize = find_char(raw.as_str(), ':', 0, len);
    if at == len {
        assert(!raw@.contains(':'));
        raw.append(":7878");
    } else {
        assert(raw@.contains(':'));
    }
    raw
}

fn first_nonempty(text: Option<String>) -> (kept: Option<String>)
    ensures
        text_view(kept) == nonempty(text_view(text)),
{
    match text {
        Some(t) => if t.as_str().is_empty() {
            None
        } else {
            Some(t)
        },
        None => None,
    }
}

} // verus!
