//! The settings of a node that runs as a process of its own.
use vstd::prelude::*;

use std::collections::HashMap;

use crate::config::InitialConfig;
use crate::node_id::ValidNodeId;
use crate::nonzero::NonZeroU64;
use crate::text::{
    chars_of, law_split_adds_a_piece, parse_u64, parse_up_to, parsed_up_to, pieces_view, spells,
    split, split_of, string_of,
};

verus! {

broadcast use vstd::std_specs::hash::group_hash_axioms;

/// The settings of a node.
#[derive(Debug, Clone, PartialEq, Eq)]
pub struct Options {
    pub id: u64,
    pub tcp_port: u64,
    pub http_port: u64,
    /// The other nodes, as `id=address` pairs with commas between them.
    pub peers: String,
    pub log_level: String,
}

/// The settings as mathematical values.
#[verifier::ext_equal]
pub struct OptionsView {
    pub id: u64,
    pub tcp_port: u64,
    pub http_port: u64,
    pub peers: Seq<char>,
    pub log_level: Seq<char>,
}

/// Why arguments give no settings. The number is the place of the argument.
#[derive(Debug, Clone, Copy, PartialEq, Eq, Structural)]
pub enum OptionError {
    MissingValue(usize),
    InvalidId(usize),
    InvalidTcpPort(usize),
    InvalidHttpPort(usize),
    Unknown(usize),
}

/// The highest port.
pub const MAX_PORT: u64 = 65535;

impl View for Options {
    type V = OptionsView;

    open spec fn view(&self) -> OptionsView {
        OptionsView {
            id: self.id,
            tcp_port: self.tcp_port,
            http_port: self.http_port,
            peers: self.peers@,
            log_level: self.log_level@,
        }
    }
}

/// The texts as mathematical values.
pub open spec fn texts_view(texts: Seq<String>) -> Seq<Seq<char>> {
    Seq::new(texts.len(), |i: int| texts[i]@)
}

impl OptionsView {
    /// The settings of a node that is told nothing.
    pub open spec fn defaults() -> OptionsView {
        OptionsView {
            id: 0,
            tcp_port: 9001,
            http_port: 8080,
            peers: Seq::empty(),
            log_level: "info"@,
        }
    }

    /// The settings once the arguments from the `i`th on were taken, two at a time.
    pub open spec fn with_args(self, args: Seq<Seq<char>>, i: int) -> Result<OptionsView, OptionError>
        decreases args.len() - i,
    {
        if i >= args.len() {
            Ok(self)
        } else {
            match self.with_arg(args, i) {
                Ok(next) => next.with_args(args, i + 2),
                Err(e) => Err(e),
            }
        }
    }

    /// The settings once the `i`th argument and its value were taken.
    pub open spec fn with_arg(self, args: Seq<Seq<char>>, i: int) -> Result<OptionsView, OptionError> {
        let known = args[i] == "--id"@ || args[i] == "--tcp-port"@ || args[i] == "--http-port"@
            || args[i] == "--peers"@ || args[i] == "--log-level"@;
        let value = args[i + 1];
        if !known {
            Err(OptionError::Unknown(i as usize))
        } else if i + 1 >= args.len() {
            Err(OptionError::MissingValue(i as usize))
        } else if args[i] == "--id"@ {
            match parsed_up_to(value, u64::MAX as nat) {
                Some(id) => Ok(OptionsView { id: id as u64, ..self }),
                None => Err(OptionError::InvalidId(i as usize)),
            }
        } else if args[i] == "--tcp-port"@ {
            match parsed_up_to(value, MAX_PORT as nat) {
                Some(port) => Ok(OptionsView { tcp_port: port as u64, ..self }),
                None => Err(OptionError::InvalidTcpPort(i as usize)),
            }
        } else if args[i] == "--http-port"@ {
            match parsed_up_to(value, MAX_PORT as nat) {
                Some(port) => Ok(OptionsView { http_port: port as u64, ..self }),
                None => Err(OptionError::InvalidHttpPort(i as usize)),
            }
        } else if args[i] == "--peers"@ {
            Ok(OptionsView { peers: value, ..self })
        } else {
            Ok(OptionsView { log_level: value, ..self })
        }
    }

    /// The settings, with a number that the environment sets in place of the id.
    pub open spec fn with_id_text(self, text: Option<Seq<char>>) -> OptionsView {
        match text {
            Some(text) => match parsed_up_to(text, u64::MAX as nat) {
                Some(id) => OptionsView { id: id as u64, ..self },
                None => self,
            },
            None => self,
        }
    }

    /// The settings, with a number that the environment sets in place of the TCP port.
    pub open spec fn with_tcp_port_text(self, text: Option<Seq<char>>) -> OptionsView {
        match text {
            Some(text) => match parsed_up_to(text, MAX_PORT as nat) {
                Some(port) => OptionsView { tcp_port: port as u64, ..self },
                None => self,
            },
            None => self,
        }
    }

    /// The settings, with a number that the environment sets in place of the HTTP port.
    pub open spec fn with_http_port_text(self, text: Option<Seq<char>>) -> OptionsView {
        match text {
            Some(text) => match parsed_up_to(text, MAX_PORT as nat) {
                Some(port) => OptionsView { http_port: port as u64, ..self },
                None => self,
            },
            None => self,
        }
    }

    /// The settings, with texts that the environment sets in place of the
    /// peers and the log level.
    pub open spec fn with_texts(self, peers: Option<Seq<char>>, log_level: Option<Seq<char>>) -> OptionsView {
        OptionsView {
            peers: match peers {
                Some(text) => text,
                None => self.peers,
            },
            log_level: match log_level {
                Some(text) => text,
                None => self.log_level,
            },
            ..self
        }
    }
}

/// A text that may be missing, as a mathematical value.
pub open spec fn text_view(text: Option<String>) -> Option<Seq<char>> {
    match text {
        Some(s) => Some(s@),
        None => None,
    }
}

impl Options {
    /// The settings of a node that is told nothing.
    pub fn defaults() -> (r: Options)
        ensures
            r@ == OptionsView::defaults(),
    {
        Options {
            id: 0,
            tcp_port: 9001,
            http_port: 8080,
            peers: String::new(),
            log_level: "info".to_owned(),
        }
    }

    fn take_arg(&mut self, args: &Vec<String>, i: usize) -> (r: Result<(), OptionError>)
        requires
            i < args@.len(),
        ensures
            match old(self)@.with_arg(texts_view(args@), i as int) {
                Ok(next) => r is Ok && final(self)@ == next,
                Err(e) => r == Err::<(), OptionError>(e),
            },
    {
        let name = chars_of(args[i].as_str());
        let is_id = spells(&name, "--id");
        let is_tcp_port = spells(&name, "--tcp-port");
        let is_http_port = spells(&name, "--http-port");
        let is_peers = spells(&name, "--peers");
        let is_log_level = spells(&name, "--log-level");
        assert(texts_view(args@)[i as int] == name@);
        if !(is_id || is_tcp_port || is_http_port || is_peers || is_log_level) {
            return Err(OptionError::Unknown(i));
        }
        if args.len() - i < 2 {
            return Err(OptionError::MissingValue(i));
        }
        let value = chars_of(args[i + 1].as_str());
        assert(texts_view(args@)[i + 1] == value@);
        if is_id {
            match parse_u64(&value) {
                Some(id) => {
                    self.id = id;
                },
                None => {
                    return Err(OptionError::InvalidId(i));
                },
            }
        } else if is_tcp_port {
            match parse_up_to(&value, MAX_PORT) {
                Some(port) => {
                    self.tcp_port = port;
                },
                None => {
                    return Err(OptionError::InvalidTcpPort(i));
                },
            }
        } else if is_http_port {
            match parse_up_to(&value, MAX_PORT) {
                Some(port) => {
                    self.http_port = port;
                },
                None => {
                    return Err(OptionError::InvalidHttpPort(i));
                },
            }
        } else if is_peers {
            self.peers = args[i + 1].clone();
        } else {
            self.log_level = args[i + 1].clone();
        }
        Ok(())
    }

    /// The settings that the arguments of a program give. The first is the
    /// name of the program.
    pub fn from_args(args: &Vec<String>) -> (r: Result<Options, OptionError>)
        ensures
            match OptionsView::defaults().with_args(texts_view(args@), 1) {
                Ok(o) => r matches Ok(options) && options@ == o,
                Err(e) => r matches Err(error) && error == e,
            },
    {
        let mut options = Options::defaults();
        let mut i: usize = 1;
        while i < args.len()
            invariant
                1 <= i,
                options@.with_args(texts_view(args@), i as int)
                    == OptionsView::defaults().with_args(texts_view(args@), 1),
            decreases args@.len() - i,
        {
            assert(args@.len() == args.len());
            match options.take_arg(args, i) {
                Ok(()) => {},
                Err(e) => {
                    return Err(e);
                },
            }
            if args.len() - i <= 2 {
                i = args.len();
                assert(options@.with_args(texts_view(args@), i as int) == Ok::<
                    OptionsView,
                    OptionError,
                >(options@));
            } else {
                i = i + 2;
            }
        }
        Ok(options)
    }

    /// The settings once the environment had its say. What it says that is no
    /// number where one is wanted is passed over.
    pub fn with_environment(
        self,
        id: Option<String>,
        tcp_port: Option<String>,
        http_port: Option<String>,
        peers: Option<String>,
        log_level: Option<String>,
    ) -> (r: Options)
        ensures
            r@ == self@.with_id_text(text_view(id)).with_tcp_port_text(
                text_view(tcp_port),
            ).with_http_port_text(text_view(http_port)).with_texts(
                text_view(peers),
                text_view(log_level),
            ),
    {
        let mut options = self;
        if let Some(text) = &id {
            if let Some(n) = parse_u64(&chars_of(text.as_str())) {
                options.id = n;
            }
        }
        if let Some(text) = &tcp_port {
            if let Some(n) = parse_up_to(&chars_of(text.as_str()), MAX_PORT) {
                options.tcp_port = n;
            }
        }
        if let Some(text) = &http_port {
            if let Some(n) = parse_up_to(&chars_of(text.as_str()), MAX_PORT) {
                options.http_port = n;
            }
        }
        if let Some(text) = peers {
            options.peers = text;
        }
        if let Some(text) = log_level {
            options.log_level = text;
        }
        options
    }
}

/// The addresses that pieces of the form `id=address` give, a later piece
/// before an earlier one. Pieces of another form are passed over; an id that
/// is no number spoils all.
pub open spec fn peers_of(pieces: Seq<Seq<char>>) -> Option<Map<u64, Seq<char>>>
    decreases pieces.len(),
{
    if pieces.len() == 0 {
        Some(Map::empty())
    } else {
        match peers_of(pieces.drop_last()) {
            None => None,
            Some(before) => {
                let kv = split_of(pieces.last(), '=');
                if kv.len() != 2 {
                    Some(before)
                } else {
                    match parsed_up_to(kv[0], u64::MAX as nat) {
                        Some(id) => Some(before.insert(id as u64, kv[1])),
                        None => None,
                    }
                }
            },
        }
    }
}

/// The addresses that a text of `id=address` pairs gives.
pub open spec fn peers_in(text: Seq<char>) -> Option<Map<u64, Seq<char>>> {
    if text.len() == 0 {
        Some(Map::empty())
    } else {
        peers_of(split_of(text, ','))
    }
}

/// The addresses as mathematical values.
pub open spec fn addresses_view(m: Map<u64, String>) -> Map<u64, Seq<char>> {
    m.map_values(|s: String| s@)
}

/// What is spoiled by one piece stays so.
proof fn lemma_peers_spoiled(pieces: Seq<Seq<char>>, k: int)
    requires
        0 <= k <= pieces.len(),
        peers_of(pieces.take(k)) is None,
    ensures
        peers_of(pieces) is None,
    decreases pieces.len() - k,
{
    if k == pieces.len() {
        assert(pieces.take(k) =~= pieces);
    } else {
        assert(pieces.take(k + 1).drop_last() =~= pieces.take(k));
        lemma_peers_spoiled(pieces, k + 1);
    }
}

/// The addresses of the other nodes, or nothing if an id is no number.
pub fn parse_peers(text: &str) -> (r: Option<HashMap<u64, String>>)
    ensures
        match peers_in(text@) {
            Some(m) => r matches Some(peers) && addresses_view(peers@) == m,
            None => r is None,
        },
{
    let chars = chars_of(text);
    let mut peers: HashMap<u64, String> = HashMap::new();
    assert(addresses_view(peers@) =~= Map::<u64, Seq<char>>::empty());
    if chars.len() == 0 {
        return Some(peers);
    }
    let pieces = split(&chars, ',');
    let ghost all = pieces_view(pieces@);
    let mut i: usize = 0;
    assert(all.take(0) =~= Seq::<Seq<char>>::empty());
    while i < pieces.len()
        invariant
            i <= pieces@.len(),
            all == pieces_view(pieces@),
            all == split_of(text@, ','),
            text@.len() > 0,
            peers_of(all.take(i as int)) == Some(addresses_view(peers@)),
        decreases pieces@.len() - i,
    {
        assert(all.take(i + 1).drop_last() =~= all.take(i as int));
        assert(all.take(i + 1).last() == pieces@[i as int]@);
        let kv = split(&pieces[i], '=');
        let ghost pair = split_of(pieces@[i as int]@, '=');
        assert(pieces_view(kv@) == pair);
        if kv.len() == 2 {
            assert(pair[0] == kv@[0]@ && pair[1] == kv@[1]@);
            match parse_u64(&kv[0]) {
                Some(id) => {
                    let ghost before = peers@;
                    let address = string_of(&kv[1]);
                    peers.insert(id, address);
                    assert(addresses_view(peers@) =~= addresses_view(before).insert(id, pair[1]));
                },
                None => {
                    proof {
                        lemma_peers_spoiled(all, i + 1);
                    }
                    return None;
                },
            }
        }
        i = i + 1;
    }
    assert(all.take(i as int) =~= all);
    Some(peers)
}

/// The configuration of node `id` in a cluster with `peers` other nodes.
pub fn process_config(id: ValidNodeId, peers: u64) -> (r: InitialConfig)
    requires
        peers < u64::MAX,
    ensures
        r.id == id,
        r.cluster_size == peers + 1,
        r.min_ticks_before_election@ == 10,
        r.max_ticks_before_election@ == 20,
        r.ticks_between_heartbeats@ == 2,
        r.last_applied_idx is None,
{
    InitialConfig {
        id,
        cluster_size: peers + 1,
        min_ticks_before_election: NonZeroU64::new(10).unwrap(),
        max_ticks_before_election: NonZeroU64::new(20).unwrap(),
        ticks_between_heartbeats: NonZeroU64::new(2).unwrap(),
        last_applied_idx: None,
    }
}

/// Each argument sets what it is meant for to its value, and nothing else. A
/// number that does not fit, or is none, is refused.
pub proof fn law_arguments_set_what_they_name(o: OptionsView, args: Seq<Seq<char>>, i: int)
    requires
        0 <= i,
        i + 1 < args.len() <= usize::MAX,
    ensures
        args[i] == "--id"@ ==> match parsed_up_to(args[i + 1], u64::MAX as nat) {
            Some(n) => o.with_arg(args, i) == Ok::<OptionsView, OptionError>(
                OptionsView { id: n as u64, ..o },
            ),
            None => o.with_arg(args, i) == Err::<OptionsView, OptionError>(
                OptionError::InvalidId(i as usize),
            ),
        },
        args[i] == "--tcp-port"@ ==> match parsed_up_to(args[i + 1], 65535) {
            Some(n) => o.with_arg(args, i) == Ok::<OptionsView, OptionError>(
                OptionsView { tcp_port: n as u64, ..o },
            ),
            None => o.with_arg(args, i) == Err::<OptionsView, OptionError>(
                OptionError::InvalidTcpPort(i as usize),
            ),
        },
        args[i] == "--http-port"@ ==> match parsed_up_to(args[i + 1], 65535) {
            Some(n) => o.with_arg(args, i) == Ok::<OptionsView, OptionError>(
                OptionsView { http_port: n as u64, ..o },
            ),
            None => o.with_arg(args, i) == Err::<OptionsView, OptionError>(
                OptionError::InvalidHttpPort(i as usize),
            ),
        },
        args[i] == "--peers"@ ==> o.with_arg(args, i) == Ok::<OptionsView, OptionError>(
            OptionsView { peers: args[i + 1], ..o },
        ),
        args[i] == "--log-level"@ ==> o.with_arg(args, i) == Ok::<OptionsView, OptionError>(
            OptionsView { log_level: args[i + 1], ..o },
        ),
{
    lemma_names_differ();
}

/// The names of the arguments are five different ones.
proof fn lemma_names_differ()
    ensures
        "--id"@.len() == 4,
        "--tcp-port"@.len() == 10,
        "--http-port"@.len() == 11,
        "--peers"@.len() == 7,
        "--log-level"@.len() == 11,
        "--http-port"@[2] != "--log-level"@[2],
{
    reveal_strlit("--id");
    reveal_strlit("--tcp-port");
    reveal_strlit("--http-port");
    reveal_strlit("--peers");
    reveal_strlit("--log-level");
}

/// An argument that has no name is refused, and so is one that should have a
/// value and has none.
pub proof fn law_wrong_arguments_are_refused(o: OptionsView, args: Seq<Seq<char>>, i: int)
    requires
        0 <= i < args.len() <= usize::MAX,
    ensures
        ({
            let named = args[i] == "--id"@ || args[i] == "--tcp-port"@ || args[i]
                == "--http-port"@ || args[i] == "--peers"@ || args[i] == "--log-level"@;
            &&& !named ==> o.with_args(args, i) == Err::<OptionsView, OptionError>(
                OptionError::Unknown(i as usize),
            )
            &&& named && i + 1 == args.len() ==> o.with_args(args, i) == Err::<
                OptionsView,
                OptionError,
            >(OptionError::MissingValue(i as usize))
        }),
{
}

/// Arguments are taken one after the other, each with its value: what a name
/// and a value at the end set is set on top of all that came before, so that of
/// two values for one thing the later counts.
pub proof fn law_later_arguments_count(
    o: OptionsView,
    args: Seq<Seq<char>>,
    i: int,
    name: Seq<char>,
    value: Seq<char>,
)
    requires
        0 <= i <= args.len(),
        (args.len() - i) % 2 == 0,
    ensures
        o.with_args(args.push(name).push(value), i) == match o.with_args(args, i) {
            Ok(taken) => taken.with_arg(args.push(name).push(value), args.len() as int),
            Err(e) => Err(e),
        },
    decreases args.len() - i,
{
    let more = args.push(name).push(value);
    if i == args.len() {
        reveal_with_fuel(OptionsView::with_args, 2);
    } else {
        assert(i + 1 < args.len());
        assert(more[i] == args[i] && more[i + 1] == args[i + 1]);
        assert(o.with_arg(more, i) == o.with_arg(args, i));
        if let Ok(next) = o.with_arg(args, i) {
            law_later_arguments_count(next, args, i + 2, name, value);
        }
    }
}

/// A node that is told nothing has no id and no peers, and the usual ports.
pub proof fn law_defaults()
    ensures
        OptionsView::defaults().id == 0,
        OptionsView::defaults().tcp_port == 9001,
        OptionsView::defaults().http_port == 8080,
        OptionsView::defaults().peers.len() == 0,
        OptionsView::defaults().log_level == "info"@,
{
}

/// What the environment sets counts more than the arguments, each for its own
/// setting; where it says nothing, or no number where one is wanted, the
/// setting stays.
pub proof fn law_environment_counts_more(o: OptionsView, text: Seq<char>, other: Seq<char>)
    ensures
        match parsed_up_to(text, u64::MAX as nat) {
            Some(n) => o.with_id_text(Some(text)) == (OptionsView { id: n as u64, ..o }),
            None => o.with_id_text(Some(text)) == o,
        },
        match parsed_up_to(text, 65535) {
            Some(n) => {
                &&& o.with_tcp_port_text(Some(text)) == (OptionsView { tcp_port: n as u64, ..o })
                &&& o.with_http_port_text(Some(text)) == (OptionsView { http_port: n as u64, ..o })
            },
            None => {
                &&& o.with_tcp_port_text(Some(text)) == o
                &&& o.with_http_port_text(Some(text)) == o
            },
        },
        o.with_id_text(None) == o,
        o.with_tcp_port_text(None) == o,
        o.with_http_port_text(None) == o,
        o.with_texts(None, None) == o,
        o.with_texts(Some(text), None) == (OptionsView { peers: text, ..o }),
        o.with_texts(None, Some(other)) == (OptionsView { log_level: other, ..o }),
        o.with_texts(Some(text), Some(other)) == (OptionsView {
            peers: text,
            log_level: other,
            ..o
        }),
{
}

/// Peers are added one by one: to those that a text gives, a comma and a number
/// with an address behind an equals sign add that address under that number,
/// in place of what was there for it. Without a number before the equals sign
/// all is refused, and a part without an equals sign adds nothing.
pub proof fn law_peers_are_added(text: Seq<char>, id: Seq<char>, address: Seq<char>)
    requires
        text.len() > 0,
        !id.contains('=') && !id.contains(','),
        !address.contains('=') && !address.contains(','),
    ensures
        peers_in(text.push(',') + (id.push('=') + address)) == match (
            peers_in(text),
            parsed_up_to(id, u64::MAX as nat),
        ) {
            (Some(before), Some(n)) => Some(before.insert(n as u64, address)),
            _ => None,
        },
        peers_in(text.push(',') + id) == peers_in(text),
        peers_in(Seq::empty()) == Some(Map::<u64, Seq<char>>::empty()),
{
    let pair = id.push('=') + address;
    assert(!pair.contains(',')) by {
        assert forall|j: int| 0 <= j < pair.len() implies pair[j] != ',' by {
            if j < id.len() {
                assert(id.contains(id[j]));
            } else if j > id.len() {
                assert(address.contains(address[j - id.len() - 1]));
            }
        }
    }
    law_split_adds_a_piece(text, pair, ',');
    law_split_adds_a_piece(text, id, ',');
    law_split_adds_a_piece(id, address, '=');
    law_split_adds_a_piece(id, id, '=');
    let pieces = split_of(text, ',');
    assert(pieces.push(pair).drop_last() =~= pieces);
    assert(pieces.push(id).drop_last() =~= pieces);
    let kv = split_of(pair, '=');
    assert(kv == seq![id].push(address));
    assert(kv.len() == 2 && kv[0] == id && kv[1] == address);
}

} // verus!
