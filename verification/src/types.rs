//! Store paths, derivations, hosts and output names, with their parsers.
use vstd::prelude::*;
use crate::text::{
    ascii_lowercase, ascii_lowercase_chars, chars_eq, chars_of, decimal_int, find, find_from_exec,
    i64_to_string, sub_chars, trim, trim_bounds, is_ascii_alphanumeric, is_ascii_alphanumeric_char, matches_at, owned, push_char,
    push_str, str_eq, string_of, strip_prefix, strip_suffix,
};

verus! {

pub const STORE_PREFIX: &'static str = "/nix/store/";

#[derive(Clone, Copy, Debug, PartialEq, Eq, PartialOrd, Ord, Hash, Structural)]
pub struct DerivationId(pub usize);

#[derive(Clone, Copy, Debug, PartialEq, Eq, PartialOrd, Ord, Hash, Structural)]
pub struct StorePathId(pub usize);

#[derive(Clone, Debug, PartialEq, Eq, PartialOrd, Ord, Hash)]
pub struct StorePath {
    pub hash: String,
    pub name: String,
}

/// A store path as text: its hash and its name.
impl View for StorePath {
    type V = (Seq<char>, Seq<char>);

    open spec fn view(&self) -> (Seq<char>, Seq<char>) {
        (self.hash@, self.name@)
    }
}

/// The 32 characters of a store path's hash are ASCII letters and digits.
pub open spec fn is_nix_hash(h: Seq<char>) -> bool {
    h.len() == 32 && forall|i: int| 0 <= i < 32 ==> is_ascii_alphanumeric(#[trigger] h[i])
}

/// `s` without the store prefix `/nix/store/`, where it has it.
pub open spec fn without_store_prefix(s: Seq<char>) -> Seq<char> {
    match strip_prefix(s, STORE_PREFIX@) {
        Some(rest) => rest,
        None => s,
    }
}

/// What `StorePath::parse` makes of `s`: a 32-character hash of ASCII letters
/// and digits, a `-`, and the name, with or without the store prefix.
pub open spec fn parse_store_path(s: Seq<char>) -> Option<(Seq<char>, Seq<char>)> {
    let path = without_store_prefix(s);
    if path.len() >= 33 && is_nix_hash(path.take(32)) && path[32] == '-' {
        Some((path.take(32), path.skip(33)))
    } else {
        None
    }
}

/// The full path of a store object: `/nix/store/<hash>-<name>`.
pub open spec fn store_path_text(hash: Seq<char>, name: Seq<char>) -> Seq<char> {
    STORE_PREFIX@ + hash + seq!['-'] + name
}

/// The suffix of a derivation's store path.
pub open spec fn drv_suffix() -> Seq<char> {
    seq!['.', 'd', 'r', 'v']
}

/// What `Derivation::parse` makes of `s`: a store path whose name ends in
/// `.drv`, with that suffix taken off.
pub open spec fn parse_derivation_path(s: Seq<char>) -> Option<(Seq<char>, Seq<char>)> {
    match parse_store_path(s) {
        Some((hash, name)) => match strip_suffix(name, drv_suffix()) {
            Some(base) => Some((hash, base)),
            None => None,
        },
        None => None,
    }
}

/// Whether `cs[start..start + 8]` are all ASCII letters and digits.
fn is_ascii_alphanumeric_8(cs: &Vec<char>, start: usize) -> (b: bool)
    requires
        start + 8 <= cs.len(),
    ensures
        b == forall|i: int| start <= i < start + 8 ==> is_ascii_alphanumeric(#[trigger] cs@[i]),
{
    let mut ok = true;
    let mut i = start;
    while i < start + 8
        invariant
            start <= i <= start + 8 <= cs.len(),
            ok == forall|j: int| start <= j < i ==> is_ascii_alphanumeric(#[trigger] cs@[j]),
        decreases start + 8 - i,
    {
        ok = ok && is_ascii_alphanumeric_char(cs[i]);
        i += 1;
    }
    ok
}

/// Whether `cs[start..start + 32]` is a valid store path hash.
fn is_valid_nix_hash_32(cs: &Vec<char>, start: usize) -> (b: bool)
    requires
        start + 32 <= cs.len(),
    ensures
        b == is_nix_hash(cs@.subrange(start as int, start + 32)),
{
    let r = is_ascii_alphanumeric_8(cs, start) && is_ascii_alphanumeric_8(cs, start + 8)
        && is_ascii_alphanumeric_8(cs, start + 16) && is_ascii_alphanumeric_8(cs, start + 24);
    proof {
        let h = cs@.subrange(start as int, start + 32);
        if r {
            assert forall|i: int| 0 <= i < 32 implies is_ascii_alphanumeric(#[trigger] h[i]) by {
                assert(h[i] == cs@[start + i]);
            }
        } else if is_nix_hash(h) {
            assert forall|i: int| start <= i < start + 32 implies is_ascii_alphanumeric(
                #[trigger] cs@[i],
            ) by {
                assert(h[i - start] == cs@[i]);
            }
        }
    }
    r
}

impl StorePath {
    pub fn new(hash: &str, name: &str) -> (r: Self)
        ensures
            r@ == (hash@, name@),
    {
        StorePath { hash: owned(hash), name: owned(name) }
    }

    /// A copy of this path.
    pub fn copied(&self) -> (r: Self)
        ensures
            r@ == self@,
    {
        StorePath { hash: self.hash.clone(), name: self.name.clone() }
    }

    /// The full path, `/nix/store/<hash>-<name>`.
    pub fn to_store_path_string(&self) -> (r: String)
        ensures
            r@ == store_path_text(self.hash@, self.name@),
    {
        let mut s = String::new();
        push_str(&mut s, STORE_PREFIX);
        push_str(&mut s, self.hash.as_str());
        push_char(&mut s, '-');
        push_str(&mut s, self.name.as_str());
        s
    }

    /// Parses a store path, with or without the `/nix/store/` prefix.
    pub fn parse(s: &str) -> (r: Option<Self>)
        ensures
            match r {
                Some(sp) => parse_store_path(s@) == Some(sp@),
                None => parse_store_path(s@) is None,
            },
    {
        let cs = chars_of(s);
        let prefix = chars_of(STORE_PREFIX);
        let start: usize = if matches_at(&cs, &prefix, 0) {
            prefix.len()
        } else {
            0
        };
        let ghost path = without_store_prefix(s@);
        assert(path == cs@.subrange(start as int, cs@.len() as int));
        if cs.len() - start < 33 {
            return None;
        }
        assert(path[32] == cs@[start + 32]);
        if cs[start + 32] != '-' {
            return None;
        }
        assert(path.take(32) == cs@.subrange(start as int, start + 32));
        if !is_valid_nix_hash_32(&cs, start) {
            return None;
        }
        assert(path.skip(33) == cs@.subrange(start + 33, cs@.len() as int));
        Some(StorePath { hash: string_of(&cs, start, start + 32), name: string_of(&cs, start + 33, cs.len()) })
    }
}

#[derive(Clone, Debug, PartialEq, Eq, PartialOrd, Ord, Hash)]
pub struct Derivation {
    pub store_path: StorePath,
}

/// A derivation is named by its store path, without the `.drv` suffix.
impl View for Derivation {
    type V = (Seq<char>, Seq<char>);

    open spec fn view(&self) -> (Seq<char>, Seq<char>) {
        self.store_path@
    }
}

impl Derivation {
    /// A copy of this derivation.
    pub fn copied(&self) -> (r: Self)
        ensures
            r@ == self@,
    {
        Derivation { store_path: self.store_path.copied() }
    }

    /// Parses the path of a `.drv` file.
    pub fn parse(s: &str) -> (r: Option<Self>)
        ensures
            match r {
                Some(d) => parse_derivation_path(s@) == Some(d@),
                None => parse_derivation_path(s@) is None,
            },
    {
        let store_path = match StorePath::parse(s) {
            Some(sp) => sp,
            None => return None,
        };
        let name = chars_of(store_path.name.as_str());
        let suffix = chars_of(".drv");
        proof {
            reveal_strlit(".drv");
            assert(suffix@ =~= drv_suffix());
        }
        if name.len() >= suffix.len() && matches_at(&name, &suffix, name.len() - suffix.len()) {
            let base = string_of(&name, 0, name.len() - suffix.len());
            Some(Derivation { store_path: StorePath { hash: store_path.hash, name: base } })
        } else {
            None
        }
    }

    /// The path of the `.drv` file, `/nix/store/<hash>-<name>.drv`.
    pub fn to_drv_string(&self) -> (r: String)
        ensures
            r@ == store_path_text(self.store_path.hash@, self.store_path.name@) + drv_suffix(),
    {
        let mut s = self.store_path.to_store_path_string();
        push_str(&mut s, ".drv");
        proof {
            reveal_strlit(".drv");
        }
        assert(".drv"@ =~= drv_suffix());
        s
    }
}

/// Parsing the text of a store path gives the path back, when its hash is
/// a valid store hash.
pub proof fn lemma_store_path_round_trip(hash: Seq<char>, name: Seq<char>)
    requires
        is_nix_hash(hash),
    ensures
        parse_store_path(store_path_text(hash, name)) == Some((hash, name)),
{
    let t = store_path_text(hash, name);
    let p = STORE_PREFIX@;
    assert(t.subrange(0, p.len() as int) =~= p);
    let path = without_store_prefix(t);
    assert(path =~= hash + seq!['-'] + name);
    assert(path.take(32) =~= hash);
    assert(path.skip(33) =~= name);
}

/// Parsing the `.drv` path of a derivation gives the derivation back, when
/// its hash is a valid store hash.
pub proof fn lemma_derivation_round_trip(hash: Seq<char>, name: Seq<char>)
    requires
        is_nix_hash(hash),
    ensures
        parse_derivation_path(store_path_text(hash, name) + drv_suffix()) == Some((hash, name)),
{
    let t = store_path_text(hash, name + drv_suffix());
    assert(store_path_text(hash, name) + drv_suffix() =~= t);
    lemma_store_path_round_trip(hash, name + drv_suffix());
    let n = name + drv_suffix();
    assert(n.subrange(n.len() - 4, n.len() as int) =~= drv_suffix());
    assert(n.subrange(0, n.len() - 4) =~= name);
}

#[derive(Clone, Debug, PartialEq, Eq, PartialOrd, Ord, Hash)]
pub enum HostWithoutContext {
    Localhost,
    Hostname(String),
}

/// A host without protocol or user: `None` for the local machine, else its name.
impl View for HostWithoutContext {
    type V = Option<Seq<char>>;

    open spec fn view(&self) -> Option<Seq<char>> {
        match self {
            HostWithoutContext::Localhost => None,
            HostWithoutContext::Hostname(h) => Some(h@),
        }
    }
}

impl HostWithoutContext {
    /// The host name; empty for the local machine.
    pub fn as_str(&self) -> (r: &str)
        ensures
            r@ == match self@ {
                None => Seq::<char>::empty(),
                Some(h) => h,
            },
    {
        match self {
            HostWithoutContext::Localhost => {
                proof {
                    reveal_strlit("");
                }
                ""
            },
            HostWithoutContext::Hostname(h) => h.as_str(),
        }
    }

    /// Whether the two name the same host.
    pub fn same_host(&self, other: &HostWithoutContext) -> (r: bool)
        ensures
            r == (self@ == other@),
    {
        match (self, other) {
            (HostWithoutContext::Localhost, HostWithoutContext::Localhost) => true,
            (HostWithoutContext::Hostname(a), HostWithoutContext::Hostname(b)) => str_eq(a.as_str(), b.as_str()),
            _ => false,
        }
    }

    /// The host as it is shown: `localhost` for the local machine.
    pub fn to_display_string(&self) -> (r: String)
        ensures
            r@ == match self@ {
                None => "localhost"@,
                Some(h) => h,
            },
    {
        match self {
            HostWithoutContext::Localhost => owned("localhost"),
            HostWithoutContext::Hostname(h) => h.clone(),
        }
    }
}

#[derive(Clone, Debug, PartialEq, Eq, PartialOrd, Ord, Hash)]
pub enum Host {
    Localhost,
    Remote { proto: Option<String>, user: Option<String>, host: String },
}

/// The text of a host: the local machine, or a remote with optional protocol
/// and user.
pub enum HostModel {
    Localhost,
    Remote { proto: Option<Seq<char>>, user: Option<Seq<char>>, host: Seq<char> },
}

pub open spec fn opt_string_view(o: Option<String>) -> Option<Seq<char>> {
    match o {
        Some(s) => Some(s@),
        None => None,
    }
}

impl View for Host {
    type V = HostModel;

    open spec fn view(&self) -> HostModel {
        match self {
            Host::Localhost => HostModel::Localhost,
            Host::Remote { proto, user, host } => HostModel::Remote {
                proto: opt_string_view(*proto),
                user: opt_string_view(*user),
                host: host@,
            },
        }
    }
}

/// The names that stand for the local machine.
pub open spec fn is_local_host_name(t: Seq<char>) -> bool {
    ||| t.len() == 0
    ||| t == "local"@
    ||| t == "local://"@
    ||| t == "unix"@
    ||| t == "unix://"@
    ||| t == "localhost"@
}

/// What `Host::parse` makes of a host name: after trimming, one of the local
/// names is the local machine; otherwise `proto://` and `user@` are split off
/// at their first occurrences.
pub open spec fn parse_host(h: Seq<char>) -> HostModel {
    let t = trim(h);
    if is_local_host_name(t) {
        HostModel::Localhost
    } else {
        let (proto, rest) = match find(t, "://"@) {
            Some(i) => (Some(t.take(i)), t.skip(i + 3)),
            None => (None, t),
        };
        let (user, host) = match find(rest, "@"@) {
            Some(i) => (Some(rest.take(i)), rest.skip(i + 1)),
            None => (None, rest),
        };
        HostModel::Remote { proto, user, host }
    }
}

/// The name of a host alone: `localhost` for the local machine.
pub open spec fn host_name_only(h: HostModel) -> Seq<char> {
    match h {
        HostModel::Localhost => "localhost"@,
        HostModel::Remote { host, .. } => host,
    }
}

/// A host as it is shown: `proto://user@host`, each part where present.
pub open spec fn host_display(h: HostModel) -> Seq<char> {
    match h {
        HostModel::Localhost => "localhost"@,
        HostModel::Remote { proto, user, host } => {
            let p = match proto {
                Some(p) => p + "://"@,
                None => Seq::empty(),
            };
            let u = match user {
                Some(u) => u + "@"@,
                None => Seq::empty(),
            };
            p + u + host
        },
    }
}

/// A host with the protocol shown in brackets: `host (proto)`.
pub open spec fn host_with_proto_context(h: HostModel) -> Seq<char> {
    match h {
        HostModel::Localhost => "localhost"@,
        HostModel::Remote { proto, host, .. } => match proto {
            Some(p) => host + " ("@ + p + ")"@,
            None => host,
        },
    }
}

fn opt_string_copy(o: &Option<String>) -> (r: Option<String>)
    ensures
        opt_string_view(r) == opt_string_view(*o),
{
    match o {
        Some(s) => Some(s.clone()),
        None => None,
    }
}

impl Host {
    /// A copy of this host.
    pub fn copied(&self) -> (r: Self)
        ensures
            r@ == self@,
    {
        match self {
            Host::Localhost => Host::Localhost,
            Host::Remote { proto, user, host } => Host::Remote {
                proto: opt_string_copy(proto),
                user: opt_string_copy(user),
                host: host.clone(),
            },
        }
    }

    /// Parses a store URI or host name, such as `ssh://user@builder`.
    pub fn parse(hostname: &str) -> (r: Self)
        ensures
            r@ == parse_host(hostname@),
    {
        let cs = chars_of(hostname);
        let (a, b) = trim_bounds(&cs);
        let t = sub_chars(&cs, a, b);
        if t.len() == 0 || chars_eq(&t, &chars_of("local")) || chars_eq(&t, &chars_of("local://"))
            || chars_eq(&t, &chars_of("unix")) || chars_eq(&t, &chars_of("unix://")) || chars_eq(
            &t,
            &chars_of("localhost"),
        ) {
            return Host::Localhost;
        }
        let sep = chars_of("://");
        let (proto, rest) = match find_from_exec(&t, &sep, 0) {
            Some(i) => {
                proof {
                    crate::text::lemma_find_from(t@, sep@, 0);
                    reveal_strlit("://");
                }
                (Some(string_of(&t, 0, i)), sub_chars(&t, i + 3, t.len()))
            },
            None => (None, t),
        };
        let at = chars_of("@");
        let (user, host) = match find_from_exec(&rest, &at, 0) {
            Some(i) => {
                proof {
                    crate::text::lemma_find_from(rest@, at@, 0);
                    reveal_strlit("@");
                }
                (Some(string_of(&rest, 0, i)), string_of(&rest, i + 1, rest.len()))
            },
            None => (None, string_of(&rest, 0, rest.len())),
        };
        proof {
            assert(rest@.subrange(0, rest@.len() as int) =~= rest@);
        }
        Host::Remote { proto, user, host }
    }

    /// The host name alone; `localhost` for the local machine.
    pub fn hostname_only(&self) -> (r: &str)
        ensures
            r@ == host_name_only(self@),
    {
        match self {
            Host::Localhost => "localhost",
            Host::Remote { host, .. } => host.as_str(),
        }
    }

    /// The host without protocol or user.
    pub fn without_context(&self) -> (r: HostWithoutContext)
        ensures
            r@ == match self@ {
                HostModel::Localhost => None,
                HostModel::Remote { host, .. } => Some(host),
            },
    {
        match self {
            Host::Localhost => HostWithoutContext::Localhost,
            Host::Remote { host, .. } => HostWithoutContext::Hostname(host.clone()),
        }
    }

    /// The same host with protocol and user dropped.
    pub fn forget_proto(&self) -> (r: Host)
        ensures
            r@ == match self@ {
                HostModel::Localhost => HostModel::Localhost,
                HostModel::Remote { host, .. } => HostModel::Remote {
                    proto: None,
                    user: None,
                    host,
                },
            },
    {
        match self {
            Host::Localhost => Host::Localhost,
            Host::Remote { host, .. } => Host::Remote { proto: None, user: None, host: host.clone() },
        }
    }

    /// The host name with its protocol in brackets, `host (proto)`.
    pub fn format_with_proto_context(&self) -> (r: String)
        ensures
            r@ == host_with_proto_context(self@),
    {
        match self {
            Host::Localhost => owned("localhost"),
            Host::Remote { proto, host, .. } => {
                match proto {
                    Some(p) => {
                        let mut s = host.clone();
                        push_str(&mut s, " (");
                        push_str(&mut s, p.as_str());
                        push_str(&mut s, ")");
                        s
                    },
                    None => host.clone(),
                }
            },
        }
    }

    /// The host as it is shown, `proto://user@host`.
    pub fn to_display_string(&self) -> (r: String)
        ensures
            r@ == host_display(self@),
    {
        match self {
            Host::Localhost => owned("localhost"),
            Host::Remote { proto, user, host } => {
                let mut s = String::new();
                if let Some(p) = proto {
                    push_str(&mut s, p.as_str());
                    push_str(&mut s, "://");
                }
                if let Some(u) = user {
                    push_str(&mut s, u.as_str());
                    push_str(&mut s, "@");
                }
                push_str(&mut s, host.as_str());
                proof {
                    reveal_strlit("");
                }
                assert(s@ =~= host_display(self@));
                s
            },
        }
    }
}

#[derive(Clone, Copy, Debug, PartialEq, Eq, PartialOrd, Ord, Hash, Structural)]
pub enum FailType {
    ExitCode(i32),
    HashMismatch,
}

/// How a failure is described: `exit code <n>` or `hash mismatch`.
pub open spec fn fail_type_text(f: FailType) -> Seq<char> {
    match f {
        FailType::ExitCode(code) => "exit code "@ + decimal_int(code as int),
        FailType::HashMismatch => "hash mismatch"@,
    }
}

impl FailType {
    /// The description of the failure.
    pub fn to_display_string(&self) -> (r: String)
        ensures
            r@ == fail_type_text(*self),
    {
        match self {
            FailType::ExitCode(code) => {
                let mut s = owned("exit code ");
                let n = i64_to_string(*code as i64);
                push_str(&mut s, n.as_str());
                s
            },
            FailType::HashMismatch => owned("hash mismatch"),
        }
    }
}

#[derive(Clone, Debug, PartialEq, Eq, PartialOrd, Ord, Hash)]
pub enum OutputName {
    Out,
    Doc,
    Dev,
    Bin,
    Info,
    Lib,
    Man,
    Dist,
    Other(String),
}

/// The name of a derivation output, by its text where it is not a common one.
pub enum OutputNameModel {
    Out,
    Doc,
    Dev,
    Bin,
    Info,
    Lib,
    Man,
    Dist,
    Other(Seq<char>),
}

impl View for OutputName {
    type V = OutputNameModel;

    open spec fn view(&self) -> OutputNameModel {
        match self {
            OutputName::Out => OutputNameModel::Out,
            OutputName::Doc => OutputNameModel::Doc,
            OutputName::Dev => OutputNameModel::Dev,
            OutputName::Bin => OutputNameModel::Bin,
            OutputName::Info => OutputNameModel::Info,
            OutputName::Lib => OutputNameModel::Lib,
            OutputName::Man => OutputNameModel::Man,
            OutputName::Dist => OutputNameModel::Dist,
            OutputName::Other(s) => OutputNameModel::Other(s@),
        }
    }
}

/// What `OutputName::parse` makes of a name: the common names, in any mix
/// of ASCII case, get their own variant; any other name is kept as it is.
pub open spec fn parse_output_name(s: Seq<char>) -> OutputNameModel {
    let l = ascii_lowercase(s);
    if l == "out"@ {
        OutputNameModel::Out
    } else if l == "doc"@ {
        OutputNameModel::Doc
    } else if l == "dev"@ {
        OutputNameModel::Dev
    } else if l == "bin"@ {
        OutputNameModel::Bin
    } else if l == "info"@ {
        OutputNameModel::Info
    } else if l == "lib"@ {
        OutputNameModel::Lib
    } else if l == "man"@ {
        OutputNameModel::Man
    } else if l == "dist"@ {
        OutputNameModel::Dist
    } else {
        OutputNameModel::Other(s)
    }
}

/// The text of an output name.
pub open spec fn output_name_text(o: OutputNameModel) -> Seq<char> {
    match o {
        OutputNameModel::Out => "out"@,
        OutputNameModel::Doc => "doc"@,
        OutputNameModel::Dev => "dev"@,
        OutputNameModel::Bin => "bin"@,
        OutputNameModel::Info => "info"@,
        OutputNameModel::Lib => "lib"@,
        OutputNameModel::Man => "man"@,
        OutputNameModel::Dist => "dist"@,
        OutputNameModel::Other(s) => s,
    }
}

impl OutputName {
    /// A copy of this output name.
    pub fn copied(&self) -> (r: Self)
        ensures
            r@ == self@,
    {
        match self {
            OutputName::Out => OutputName::Out,
            OutputName::Doc => OutputName::Doc,
            OutputName::Dev => OutputName::Dev,
            OutputName::Bin => OutputName::Bin,
            OutputName::Info => OutputName::Info,
            OutputName::Lib => OutputName::Lib,
            OutputName::Man => OutputName::Man,
            OutputName::Dist => OutputName::Dist,
            OutputName::Other(s) => OutputName::Other(s.clone()),
        }
    }

    /// Parses an output name.
    pub fn parse(s: &str) -> (r: Self)
        ensures
            r@ == parse_output_name(s@),
    {
        let cs = chars_of(s);
        let l = ascii_lowercase_chars(&cs);
        if chars_eq(&l, &chars_of("out")) {
            OutputName::Out
        } else if chars_eq(&l, &chars_of("doc")) {
            OutputName::Doc
        } else if chars_eq(&l, &chars_of("dev")) {
            OutputName::Dev
        } else if chars_eq(&l, &chars_of("bin")) {
            OutputName::Bin
        } else if chars_eq(&l, &chars_of("info")) {
            OutputName::Info
        } else if chars_eq(&l, &chars_of("lib")) {
            OutputName::Lib
        } else if chars_eq(&l, &chars_of("man")) {
            OutputName::Man
        } else if chars_eq(&l, &chars_of("dist")) {
            OutputName::Dist
        } else {
            OutputName::Other(owned(s))
        }
    }

    /// The text of the output name.
    pub fn as_str(&self) -> (r: &str)
        ensures
            r@ == output_name_text(self@),
    {
        match self {
            OutputName::Out => "out",
            OutputName::Doc => "doc",
            OutputName::Dev => "dev",
            OutputName::Bin => "bin",
            OutputName::Info => "info",
            OutputName::Lib => "lib",
            OutputName::Man => "man",
            OutputName::Dist => "dist",
            OutputName::Other(s) => s.as_str(),
        }
    }

    /// Whether two output names are the same.
    pub fn same_as(&self, other: &OutputName) -> (r: bool)
        ensures
            r == (self@ == other@),
    {
        match (self, other) {
            (OutputName::Out, OutputName::Out) => true,
            (OutputName::Doc, OutputName::Doc) => true,
            (OutputName::Dev, OutputName::Dev) => true,
            (OutputName::Bin, OutputName::Bin) => true,
            (OutputName::Info, OutputName::Info) => true,
            (OutputName::Lib, OutputName::Lib) => true,
            (OutputName::Man, OutputName::Man) => true,
            (OutputName::Dist, OutputName::Dist) => true,
            (OutputName::Other(a), OutputName::Other(b)) => crate::text::str_eq(a.as_str(), b.as_str()),
            _ => false,
        }
    }
}

/// Parsing the text of an output name gives the name back, for every name
/// that `parse` can produce.
pub proof fn lemma_output_name_round_trip(s: Seq<char>)
    ensures
        parse_output_name(output_name_text(parse_output_name(s))) == parse_output_name(s),
{
    reveal_strlit("out");
    reveal_strlit("doc");
    reveal_strlit("dev");
    reveal_strlit("bin");
    reveal_strlit("info");
    reveal_strlit("lib");
    reveal_strlit("man");
    reveal_strlit("dist");
    assert(ascii_lowercase("out"@) =~= "out"@);
    assert(ascii_lowercase("doc"@) =~= "doc"@);
    assert(ascii_lowercase("dev"@) =~= "dev"@);
    assert(ascii_lowercase("bin"@) =~= "bin"@);
    assert(ascii_lowercase("info"@) =~= "info"@);
    assert(ascii_lowercase("lib"@) =~= "lib"@);
    assert(ascii_lowercase("man"@) =~= "man"@);
    assert(ascii_lowercase("dist"@) =~= "dist"@);
}

} // verus!
