//! The few PVE API calls the provider needs: what is asked, and what the
//! replies say.
use vstd::prelude::*;

use crate::address::address_in;
use crate::address::parse_address;
use crate::address::IpAddr;
use crate::config::Pve;
use crate::text::{decimal, pieces, texts, trimmed};
use crate::text::{decimal_text, split_text, trim_text};
use crate::value::{lookup, trees_of, viewed, Numeral, Tree};
use crate::value::Value;

verus! {

/// One row of `GET /cluster/resources?type=vm`.
#[derive(Debug, Clone)]
pub struct Resource {
    pub vmid: u64,
    pub node: String,
    /// `lxc` or `qemu`.
    pub kind: String,
    pub status: String,
    pub name: Option<String>,
    pub tags: Option<String>,
}

/// The tags in a resource's list of them: the pieces between semicolons that are
/// not empty.
pub open spec fn tags_in(list: Seq<char>) -> Seq<Seq<char>> {
    pieces(list, ';').filter(|t: Seq<char>| t.len() > 0)
}

/// The tags of a resource, none where it has no list of them.
pub open spec fn tags_of(list: Option<String>) -> Seq<Seq<char>> {
    match list {
        Some(list) => tags_in(list@),
        None => Seq::empty(),
    }
}

impl Resource {
    /// The tags of the resource.
    pub fn tags(&self) -> (r: Vec<String>)
        ensures
            texts(r@) == tags_of(self.tags),
    {
        let mut out: Vec<String> = Vec::new();
        assert(texts(out@) =~= Seq::<Seq<char>>::empty());
        if let Some(list) = &self.tags {
            let parts = split_text(list.as_str(), ';');
            let ghost all = pieces(list@, ';');
            let ghost kept = |t: Seq<char>| t.len() > 0;
            let mut i: usize = 0;
            assert(all.take(0).filter(kept) =~= Seq::<Seq<char>>::empty()) by {
                reveal(Seq::filter);
            }
            while i < parts.len()
                invariant
                    i <= parts@.len(),
                    all == texts(parts@),
                    kept == (|t: Seq<char>| t.len() > 0),
                    texts(out@) == all.take(i as int).filter(kept),
                decreases parts@.len() - i,
            {
                let ghost before = texts(out@);
                assert(all.take(i + 1).drop_last() == all.take(i as int));
                assert(all.take(i + 1).last() == parts@[i as int]@);
                reveal(Seq::filter);
                if !parts[i].as_str().is_empty() {
                    out.push(parts[i].clone());
                    assert(texts(out@) =~= before.push(parts@[i as int]@));
                }
                i = i + 1;
            }
            assert(all.take(i as int) == all);
        }
        out
    }
}

/// A request to the API: `GET <path>` with a query.
pub struct Request {
    pub path: String,
    pub query: Vec<(String, String)>,
}

/// What a request asks.
pub open spec fn asks(request: Request, path: Seq<char>, query: Seq<(Seq<char>, Seq<char>)>) -> bool {
    &&& request.path@ == path
    &&& request.query@.map_values(|q: (String, String)| (q.0@, q.1@)) == query
}

fn question(path: String) -> (r: Request)
    ensures
        asks(r, path@, Seq::empty()),
{
    let r = Request { path, query: Vec::new() };
    assert(r.query@.map_values(|q: (String, String)| (q.0@, q.1@)) =~= Seq::<
        (Seq<char>, Seq<char>),
    >::empty());
    r
}

fn also(request: Request, key: &str, value: &str) -> (r: Request)
    ensures
        forall|path: Seq<char>, query: Seq<(Seq<char>, Seq<char>)>|
            asks(request, path, query) ==> #[trigger] asks(r, path, query.push((key@, value@))),
{
    let mut r = request;
    let ghost before = r.query@.map_values(|q: (String, String)| (q.0@, q.1@));
    r.query.push((key.to_string(), value.to_string()));
    assert(r.query@.map_values(|q: (String, String)| (q.0@, q.1@)) =~= before.push(
        (key@, value@),
    ));
    r
}

/// The side of the API's client that is not the network: where requests go, the
/// token they carry, what they ask, and what the replies say.
pub struct Client {
    /// Where every path of the API starts.
    pub base: String,
    /// The value of the `Authorization` header.
    pub authorization: String,
}

/// The token as the `Authorization` header carries it.
pub open spec fn token_of(pve: Pve) -> Seq<char> {
    "PVEAPIToken="@ + pve.token_id@ + "="@ + (match pve.token_secret {
        Some(secret) => secret@,
        None => ""@,
    })
}

/// Whether a text can be the value of a header: no control character stands in
/// it but the tab.
pub open spec fn is_header_value(text: Seq<char>) -> bool {
    forall|i: int|
        0 <= i < text.len() ==> {
            let c = #[trigger] text[i];
            c == '\t' || (c as int >= 32 && c as int != 127)
        }
}

/// `HeaderValue::from_str` of the crate http, by way of reqwest: it takes a text
/// exactly where each of its bytes is the tab, or is at least 32 and not 127.
/// The bytes of a character beyond ASCII are all at least 128.
#[verifier::external_body]
fn can_be_header_value(text: &str) -> (r: bool)
    ensures
        r == is_header_value(text@),
{
    reqwest::header::HeaderValue::from_str(text).is_ok()
}

/// Whether a status says that the request succeeded.
pub open spec fn is_success(status: u16) -> bool {
    200 <= status < 300
}

/// What is said of a reply whose status is not a success.
pub open spec fn refusal_text(
    path: Seq<char>,
    status: u16,
    reason: Option<String>,
    body: Seq<char>,
) -> Seq<char> {
    "GET "@ + path + ": "@ + decimal(status as nat) + " "@ + (match reason {
        Some(reason) => reason@,
        None => ""@,
    }) + " "@ + trimmed(body)
}

/// A reply of the API.
pub struct Reply {
    pub status: u16,
    /// The reason phrase that goes with the status.
    pub reason: Option<String>,
    /// The body as a text.
    pub body: String,
    /// The `data` of the envelope that the body is, or why it is none.
    pub envelope: Result<Option<Value>, String>,
}

/// What a request comes to, by the reply, or by why there is none.
pub open spec fn reply_read(path: Seq<char>, reply: Result<Reply, String>) -> Result<
    Tree,
    Seq<char>,
> {
    match reply {
        Err(error) => Err("GET "@ + path + ": "@ + error@),
        Ok(reply) => if !is_success(reply.status) {
            Err(refusal_text(path, reply.status, reply.reason, reply.body@))
        } else {
            match reply.envelope {
                Ok(Some(data)) => Ok(data@),
                Ok(None) => Ok(Tree::Null),
                Err(error) => Err("GET "@ + path + ": decoding: "@ + error@),
            }
        },
    }
}

impl Client {
    /// The client for an API; refused where the token cannot be a header's value.
    pub fn new(pve: &Pve) -> (r: Result<Client, String>)
        ensures
            match r {
                Ok(client) => {
                    &&& is_header_value(token_of(*pve))
                    &&& client.base@ == pve.url@ + "/api2/json"@
                    &&& client.authorization@ == token_of(*pve)
                },
                Err(error) => {
                    &&& !is_header_value(token_of(*pve))
                    &&& error@ == "token id or secret is not a valid header value"@
                },
            },
    {
        let secret = match &pve.token_secret {
            Some(secret) => secret.clone(),
            None => "".to_string(),
        };
        let start = "PVEAPIToken=".to_string().concat(pve.token_id.as_str()).concat("=");
        let authorization = start.concat(secret.as_str());
        if !can_be_header_value(authorization.as_str()) {
            return Err("token id or secret is not a valid header value".to_string());
        }
        Ok(Client { base: pve.url.clone().concat("/api2/json"), authorization })
    }

    /// Where a path of the API is.
    pub fn url(&self, path: &str) -> (r: String)
        ensures
            r@ == self.base@ + path@,
    {
        self.base.clone().concat(path)
    }

    /// All guests of the cluster.
    pub fn ask_cluster_resources() -> (r: Request)
        ensures
            asks(r, "/cluster/resources"@, seq![("type"@, "vm"@)]),
    {
        let r = also(question("/cluster/resources".to_string()), "type", "vm");
        proof {
            let none = Seq::<(Seq<char>, Seq<char>)>::empty();
            assert(asks(r, "/cluster/resources"@, none.push(("type"@, "vm"@))));
            assert(none.push(("type"@, "vm"@)) =~= seq![("type"@, "vm"@)]);
        }
        r
    }

    /// The guests whose metadata has something at `prefix`.
    pub fn ask_meta_guests_with(prefix: &str) -> (r: Request)
        ensures
            asks(r, "/meta/guests"@, seq![("has"@, prefix@)]),
    {
        let r = also(question("/meta/guests".to_string()), "has", prefix);
        proof {
            let none = Seq::<(Seq<char>, Seq<char>)>::empty();
            assert(asks(r, "/meta/guests"@, none.push(("has"@, prefix@))));
            assert(none.push(("has"@, prefix@)) =~= seq![("has"@, prefix@)]);
        }
        r
    }

    /// The subtree at `view` of one guest's document.
    pub fn ask_meta_view(vmid: u64, view: &str) -> (r: Request)
        ensures
            asks(
                r,
                "/meta/guests/"@ + decimal(vmid as nat),
                seq![("view"@, view@), ("format"@, "json"@)],
            ),
    {
        let path = "/meta/guests/".to_string().concat(decimal_text(vmid).as_str());
        let ghost at = path@;
        let first = also(question(path), "view", view);
        let r = also(first, "format", "json");
        proof {
            let none = Seq::<(Seq<char>, Seq<char>)>::empty();
            let one = none.push(("view"@, view@));
            assert(asks(first, at, one));
            assert(asks(r, at, one.push(("format"@, "json"@))));
            assert(one.push(("format"@, "json"@)) =~= seq![
                ("view"@, view@),
                ("format"@, "json"@),
            ]);
        }
        r
    }

    /// The interfaces of a running container.
    pub fn ask_lxc_addresses(node: &str, vmid: u64) -> (r: Request)
        ensures
            asks(
                r,
                "/nodes/"@ + node@ + "/lxc/"@ + decimal(vmid as nat) + "/interfaces"@,
                Seq::empty(),
            ),
    {
        let start = "/nodes/".to_string().concat(node).concat("/lxc/");
        question(start.concat(decimal_text(vmid).as_str()).concat("/interfaces"))
    }

    /// The interfaces that a running VM's guest agent knows.
    pub fn ask_qemu_addresses(node: &str, vmid: u64) -> (r: Request)
        ensures
            asks(
                r,
                "/nodes/"@ + node@ + "/qemu/"@ + decimal(vmid as nat)
                    + "/agent/network-get-interfaces"@,
                Seq::empty(),
            ),
    {
        let start = "/nodes/".to_string().concat(node).concat("/qemu/");
        question(start.concat(decimal_text(vmid).as_str()).concat("/agent/network-get-interfaces"))
    }

    /// Whether a status says that the request succeeded.
    pub fn succeeded(status: u16) -> (r: bool)
        ensures
            r == is_success(status),
    {
        200 <= status && status < 300
    }

    /// What a request for `path` comes to, by the reply, or by why there is none:
    /// the `data` of its envelope, null where there is none, or an error.
    pub fn read(path: &str, reply: Result<Reply, String>) -> (r: Result<Value, String>)
        ensures
            viewed(r) == reply_read(path@, reply),
    {
        match reply {
            Err(error) => {
                Err("GET ".to_string().concat(path).concat(": ").concat(error.as_str()))
            },
            Ok(reply) => {
                if !Client::succeeded(reply.status) {
                    return Err(
                        Client::refusal(path, reply.status, reply.reason, reply.body.as_str()),
                    );
                }
                match reply.envelope {
                    Ok(data) => Ok(Client::data(data)),
                    Err(error) => {
                        let start = "GET ".to_string().concat(path).concat(": decoding: ");
                        Err(start.concat(error.as_str()))
                    },
                }
            },
        }
    }

    /// What is said of a reply whose status is not a success.
    pub fn refusal(path: &str, status: u16, reason: Option<String>, body: &str) -> (r: String)
        ensures
            r@ == refusal_text(path@, status, reason, body@),
    {
        let reason = match reason {
            Some(reason) => reason,
            None => "".to_string(),
        };
        let code = decimal_text(status as u64);
        let start = "GET ".to_string().concat(path).concat(": ").concat(code.as_str());
        start.concat(" ").concat(reason.as_str()).concat(" ").concat(trim_text(body).as_str())
    }

    /// The `data` of a reply's envelope; null where there is none.
    pub fn data(envelope: Option<Value>) -> (r: Value)
        ensures
            r@ == match envelope {
                Some(data) => data@,
                None => Tree::Null,
            },
    {
        match envelope {
            Some(data) => data,
            None => Value::Null,
        }
    }
}

/// The value under `key`, where this is a table that has it.
pub open spec fn field(tree: Tree, key: Seq<char>) -> Option<Tree> {
    match tree {
        Tree::Table(entries) => lookup(entries, key),
        _ => None,
    }
}

/// The items of a list; none where there is no list.
pub open spec fn items_of(tree: Option<Tree>) -> Seq<Tree> {
    match tree {
        Some(Tree::List(items)) => items,
        _ => Seq::empty(),
    }
}

/// The texts under `key`: one, or none where no text is there.
pub open spec fn text_under(tree: Tree, key: Seq<char>) -> Seq<Seq<char>> {
    match field(tree, key) {
        Some(Tree::Text(s)) => seq![s],
        _ => Seq::empty(),
    }
}

/// What stands before the first slash of each text.
pub open spec fn before_slash(found: Seq<Seq<char>>) -> Seq<Seq<char>> {
    found.map_values(|s: Seq<char>| pieces(s, '/')[0])
}

/// The vmids that the rows name.
pub open spec fn vmids_in(rows: Seq<Tree>) -> Seq<u64>
    decreases rows.len(),
{
    if rows.len() == 0 {
        Seq::empty()
    } else {
        let before = vmids_in(rows.drop_last());
        match field(rows.last(), "vmid"@) {
            Some(Tree::Number(Numeral::Unsigned(n))) => before.push(n),
            _ => before,
        }
    }
}

/// The addresses that a container's interfaces report, as texts, without the
/// lengths of their prefixes: of each interface the one of IPv4 and then the one
/// of IPv6.
pub open spec fn lxc_texts_in(interfaces: Seq<Tree>) -> Seq<Seq<char>>
    decreases interfaces.len(),
{
    if interfaces.len() == 0 {
        Seq::empty()
    } else {
        let last = interfaces.last();
        lxc_texts_in(interfaces.drop_last()) + before_slash(text_under(last, "inet"@))
            + before_slash(text_under(last, "inet6"@))
    }
}

/// The addresses in a list of them, as texts.
pub open spec fn agent_texts_in(addresses: Seq<Tree>) -> Seq<Seq<char>>
    decreases addresses.len(),
{
    if addresses.len() == 0 {
        Seq::empty()
    } else {
        agent_texts_in(addresses.drop_last()) + text_under(addresses.last(), "ip-address"@)
    }
}

/// The addresses that a guest agent's interfaces report, as texts.
pub open spec fn qemu_texts_in(interfaces: Seq<Tree>) -> Seq<Seq<char>>
    decreases interfaces.len(),
{
    if interfaces.len() == 0 {
        Seq::empty()
    } else {
        qemu_texts_in(interfaces.drop_last()) + agent_texts_in(
            items_of(field(interfaces.last(), "ip-addresses"@)),
        )
    }
}

/// The addresses among what texts were found to denote.
pub open spec fn known_in(parsed: Seq<Option<IpAddr>>) -> Seq<IpAddr>
    decreases parsed.len(),
{
    if parsed.len() == 0 {
        Seq::empty()
    } else {
        let before = known_in(parsed.drop_last());
        match parsed.last() {
            Some(ip) => before.push(ip),
            None => before,
        }
    }
}

/// The addresses that the texts denote, without those that denote none.
pub open spec fn addresses_in(found: Seq<Seq<char>>) -> Seq<IpAddr> {
    known_in(found.map_values(|s: Seq<char>| address_in(s)))
}

/// The addresses among what texts were found to denote.
pub fn known_addresses(parsed: &Vec<Option<IpAddr>>) -> (r: Vec<IpAddr>)
    ensures
        r@ == known_in(parsed@),
{
    let ghost all = parsed@;
    let mut out: Vec<IpAddr> = Vec::new();
    let mut i: usize = 0;
    assert(all.take(0).len() == 0);
    while i < parsed.len()
        invariant
            i <= parsed@.len(),
            all == parsed@,
            out@ == known_in(all.take(i as int)),
        decreases parsed@.len() - i,
    {
        assert(all.take(i + 1).drop_last() == all.take(i as int));
        if let Some(ip) = parsed[i] {
            out.push(ip);
        }
        i = i + 1;
    }
    assert(all.take(i as int) == all);
    out
}

/// The addresses that the texts denote, without those that denote none.
pub fn addresses_of(found: &Vec<String>) -> (r: Vec<IpAddr>)
    ensures
        r@ == addresses_in(texts(found@)),
{
    let ghost all = texts(found@).map_values(|s: Seq<char>| address_in(s));
    let mut parsed: Vec<Option<IpAddr>> = Vec::new();
    let mut i: usize = 0;
    while i < found.len()
        invariant
            i <= found@.len(),
            all == texts(found@).map_values(|s: Seq<char>| address_in(s)),
            parsed@ == all.take(i as int),
        decreases found@.len() - i,
    {
        parsed.push(parse_address(found[i].as_str()));
        i = i + 1;
        assert(parsed@ =~= all.take(i as int));
    }
    assert(parsed@ =~= all);
    known_addresses(&parsed)
}

/// The text under `key`, where there is one.
fn text_field<'a>(value: &'a Value, key: &str) -> (r: Option<&'a String>)
    ensures
        text_under(value@, key@) == match r {
            Some(s) => seq![s@],
            None => Seq::<Seq<char>>::empty(),
        },
{
    match value.get(key) {
        Some(Value::Text(s)) => Some(s),
        _ => None,
    }
}

/// Puts what stands before the first slash of the text under `key` to the
/// texts, where there is one.
fn push_before_slash(out: &mut Vec<String>, value: &Value, key: &str)
    ensures
        texts(final(out)@) == texts(old(out)@) + before_slash(text_under(value@, key@)),
{
    let ghost before = texts(out@);
    match text_field(value, key) {
        Some(s) => {
            let parts = split_text(s.as_str(), '/');
            let ghost found = seq![s@];
            proof {
                pieces_not_empty(s@, '/');
                assert(texts(parts@).len() == parts@.len());
                assert(texts(parts@)[0] == parts@[0]@);
            }
            out.push(parts[0].clone());
            assert(texts(out@) =~= before.push(pieces(s@, '/')[0]));
            assert(texts(out@) =~= before + before_slash(found));
        },
        None => {
            assert(texts(out@) =~= before + before_slash(Seq::empty()));
        },
    }
}

/// A text has at least one piece.
pub proof fn pieces_not_empty(s: Seq<char>, separator: char)
    ensures
        pieces(s, separator).len() > 0,
    decreases s.len(),
{
    if s.len() > 0 {
        pieces_not_empty(s.drop_last(), separator);
    }
}

/// The addresses that a container's interfaces report, as texts.
pub fn lxc_texts(data: &Value) -> (r: Vec<String>)
    ensures
        texts(r@) == lxc_texts_in(items_of(Some(data@))),
{
    let mut out: Vec<String> = Vec::new();
    assert(texts(out@) =~= Seq::<Seq<char>>::empty());
    if let Value::List(interfaces) = data {
        let ghost all = trees_of(interfaces@);
        let mut i: usize = 0;
        assert(all.take(0).len() == 0);
        while i < interfaces.len()
            invariant
                i <= interfaces@.len(),
                all == trees_of(interfaces@),
                texts(out@) == lxc_texts_in(all.take(i as int)),
            decreases interfaces@.len() - i,
        {
            assert(all.take(i + 1).drop_last() == all.take(i as int));
            assert(all.take(i + 1).last() == interfaces@[i as int]@);
            push_before_slash(&mut out, &interfaces[i], "inet");
            push_before_slash(&mut out, &interfaces[i], "inet6");
            i = i + 1;
        }
        assert(all.take(i as int) == all);
    }
    out
}

/// Puts the addresses of one of the guest agent's interfaces to the texts.
fn push_agent_texts(out: &mut Vec<String>, interface: &Value)
    ensures
        texts(final(out)@) == texts(old(out)@) + agent_texts_in(
            items_of(field(interface@, "ip-addresses"@)),
        ),
{
    let ghost before = texts(out@);
    assert(texts(out@) =~= before + Seq::<Seq<char>>::empty());
    if let Some(Value::List(addresses)) = interface.get("ip-addresses") {
        let ghost all = trees_of(addresses@);
        let mut i: usize = 0;
        assert(all.take(0).len() == 0);
        while i < addresses.len()
            invariant
                i <= addresses@.len(),
                all == trees_of(addresses@),
                texts(out@) == before + agent_texts_in(all.take(i as int)),
            decreases addresses@.len() - i,
        {
            assert(all.take(i + 1).drop_last() == all.take(i as int));
            assert(all.take(i + 1).last() == addresses@[i as int]@);
            let ghost sofar = texts(out@);
            match text_field(&addresses[i], "ip-address") {
                Some(s) => {
                    out.push(s.clone());
                    assert(texts(out@) =~= sofar + seq![s@]);
                },
                None => {
                    assert(texts(out@) =~= sofar + Seq::<Seq<char>>::empty());
                },
            }
            assert(texts(out@) =~= before + agent_texts_in(all.take(i + 1)));
            i = i + 1;
        }
        assert(all.take(i as int) == all);
    }
}

/// The addresses that a guest agent's interfaces report, as texts.
pub fn qemu_texts(data: &Value) -> (r: Vec<String>)
    ensures
        texts(r@) == qemu_texts_in(items_of(field(data@, "result"@))),
{
    let mut out: Vec<String> = Vec::new();
    assert(texts(out@) =~= Seq::<Seq<char>>::empty());
    if let Some(Value::List(interfaces)) = data.get("result") {
        let ghost all = trees_of(interfaces@);
        let mut i: usize = 0;
        assert(all.take(0).len() == 0);
        while i < interfaces.len()
            invariant
                i <= interfaces@.len(),
                all == trees_of(interfaces@),
                texts(out@) == qemu_texts_in(all.take(i as int)),
            decreases interfaces@.len() - i,
        {
            assert(all.take(i + 1).drop_last() == all.take(i as int));
            assert(all.take(i + 1).last() == interfaces@[i as int]@);
            push_agent_texts(&mut out, &interfaces[i]);
            i = i + 1;
        }
        assert(all.take(i as int) == all);
    }
    out
}

impl Client {
    /// The vmids whose metadata has something at the prefix, by the reply to
    /// [`Client::ask_meta_guests_with`].
    pub fn meta_guests_with(data: &Value) -> (r: Result<Vec<u64>, String>)
        ensures
            match data@ {
                Tree::List(rows) => r is Ok && r->Ok_0@ == vmids_in(rows),
                _ => r is Err && r->Err_0@ == "GET /meta/guests: not a list"@,
            },
    {
        let rows = match data {
            Value::List(rows) => rows,
            _ => {
                return Err("GET /meta/guests: not a list".to_string());
            },
        };
        let ghost all = trees_of(rows@);
        let mut out: Vec<u64> = Vec::new();
        let mut i: usize = 0;
        assert(all.take(0).len() == 0);
        while i < rows.len()
            invariant
                i <= rows@.len(),
                all == trees_of(rows@),
                out@ == vmids_in(all.take(i as int)),
            decreases rows@.len() - i,
        {
            assert(all.take(i + 1).drop_last() == all.take(i as int));
            assert(all.take(i + 1).last() == rows@[i as int]@);
            if let Some(vmid) = rows[i].get("vmid") {
                if let Some(n) = vmid.as_u64() {
                    out.push(n);
                }
            }
            i = i + 1;
        }
        assert(all.take(i as int) == all);
        Ok(out)
    }

    /// The subtree of one guest's document, by the reply to
    /// [`Client::ask_meta_view`]; null where there is none.
    pub fn meta_view(data: Value) -> (r: Value)
        ensures
            r@ == match field(data@, "data"@) {
                Some(subtree) => subtree,
                None => Tree::Null,
            },
    {
        match data {
            Value::Table(table) => {
                let mut table = table;
                match table.position("data") {
                    Some(i) => table.remove_at(i),
                    None => Value::Null,
                }
            },
            _ => Value::Null,
        }
    }

    /// The addresses a running container reports, by the reply to
    /// [`Client::ask_lxc_addresses`]. No agent involved.
    pub fn lxc_addresses(data: &Value) -> (r: Vec<IpAddr>)
        ensures
            r@ == addresses_in(lxc_texts_in(items_of(Some(data@)))),
    {
        addresses_of(&lxc_texts(data))
    }

    /// The addresses a running VM's guest agent reports, by the reply to
    /// [`Client::ask_qemu_addresses`].
    pub fn qemu_addresses(data: &Value) -> (r: Vec<IpAddr>)
        ensures
            r@ == addresses_in(qemu_texts_in(items_of(field(data@, "result"@)))),
    {
        addresses_of(&qemu_texts(data))
    }
}

} // verus!
