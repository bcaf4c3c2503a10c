//! Peer addresses: an ordered sequence of typed components (ip4 host, tcp
//! port, relay-circuit marker, trailing peer identifier), parsed from and
//! rendered to their canonical textual form.

use vstd::prelude::*;

verus! {

// Byte values of the characters of the textual address form.
pub const B_SLASH: u8 = 47;
pub const B_DOT: u8 = 46;
pub const B_HYPHEN: u8 = 45;
pub const B_0: u8 = 48;
pub const B_1: u8 = 49;
pub const B_2: u8 = 50;
pub const B_4: u8 = 52;
pub const B_9: u8 = 57;
pub const B_UC_A: u8 = 65;
pub const B_UC_I: u8 = 73;
pub const B_UC_O: u8 = 79;
pub const B_UC_Z: u8 = 90;
pub const B_LC_A: u8 = 97;
pub const B_LC_C: u8 = 99;
pub const B_LC_I: u8 = 105;
pub const B_LC_L: u8 = 108;
pub const B_LC_P: u8 = 112;
pub const B_LC_R: u8 = 114;
pub const B_LC_T: u8 = 116;
pub const B_LC_U: u8 = 117;
pub const B_LC_Z: u8 = 122;

// ---------------------------------------------------------------------------
// Node identifiers
// ---------------------------------------------------------------------------

/// A byte of the base58btc alphabet used for textual node identifiers.
pub open spec fn is_base58_byte(b: u8) -> bool {
    (B_1 <= b && b <= B_9)
        || (B_UC_A <= b && b <= B_UC_Z && b != B_UC_I && b != B_UC_O)
        || (B_LC_A <= b && b <= B_LC_Z && b != B_LC_L)
}

/// A valid node-identifier text: non-empty, all bytes in the base58 alphabet.
pub open spec fn valid_id(s: Seq<u8>) -> bool {
    s.len() > 0 && (forall|i: int| 0 <= i < s.len() ==> is_base58_byte(s[i]))
}

/// An opaque node identifier in its textual (base58) form.
/// Equality is structural.
#[derive(Debug, PartialEq, Eq)]
pub struct NodeId {
    pub repr: Vec<u8>,
}

impl View for NodeId {
    type V = Seq<u8>;

    open spec fn view(&self) -> Seq<u8> {
        self.repr@
    }
}

/// Copies a byte vector; the copy has the same contents.
fn copy_bytes(v: &Vec<u8>) -> (r: Vec<u8>)
    ensures
        r@ == v@,
{
    let mut out: Vec<u8> = Vec::new();
    let mut i: usize = 0;
    while i < v.len()
        invariant
            i <= v@.len(),
            out@ == v@.take(i as int),
        decreases v@.len() - i,
    {
        out.push(v[i]);
        proof {
            assert(out@ =~= v@.take(i + 1));
        }
        i = i + 1;
    }
    proof {
        assert(v@.take(v@.len() as int) =~= v@);
    }
    out
}

/// The given byte is in the base58 alphabet.
fn is_b58(b: u8) -> (r: bool)
    ensures
        r == is_base58_byte(b),
{
    (B_1 <= b && b <= B_9)
        || (B_UC_A <= b && b <= B_UC_Z && b != B_UC_I && b != B_UC_O)
        || (B_LC_A <= b && b <= B_LC_Z && b != B_LC_L)
}

/// All bytes of `s[start..end]` are base58 and the range is non-empty.
fn check_base58(s: &Vec<u8>, start: usize, end: usize) -> (r: bool)
    requires
        start <= end <= s@.len(),
    ensures
        r == valid_id(s@.subrange(start as int, end as int)),
{
    let ghost t = s@.subrange(start as int, end as int);
    if end == start {
        return false;
    }
    let mut i = start;
    while i < end
        invariant
            start <= i <= end <= s@.len(),
            t == s@.subrange(start as int, end as int),
            forall|j: int| 0 <= j < i - start ==> is_base58_byte(t[j]),
        decreases end - i,
    {
        if !is_b58(s[i]) {
            proof {
                assert(t[i - start] == s@[i as int]);
            }
            return false;
        }
        proof {
            assert(t[i - start] == s@[i as int]);
        }
        i = i + 1;
    }
    true
}

impl NodeId {
    /// This identifier's text is well formed.
    pub open spec fn wf(&self) -> bool {
        valid_id(self@)
    }

    /// Builds an identifier from its textual bytes; accepts exactly the
    /// non-empty base58 texts.
    pub fn new(repr: Vec<u8>) -> (r: Option<NodeId>)
        ensures
            r is Some <==> valid_id(repr@),
            r is Some ==> r->Some_0@ == repr@,
    {
        if check_base58(&repr, 0, repr.len()) {
            proof {
                assert(repr@.subrange(0, repr@.len() as int) =~= repr@);
            }
            Some(NodeId { repr })
        } else {
            proof {
                assert(repr@.subrange(0, repr@.len() as int) =~= repr@);
            }
            None
        }
    }

    /// The textual bytes of this identifier.
    pub fn bytes(&self) -> (r: &Vec<u8>)
        ensures
            r@ == self@,
    {
        &self.repr
    }

    /// A copy of this identifier.
    pub fn duplicate(&self) -> (r: NodeId)
        ensures
            r@ == self@,
    {
        NodeId { repr: copy_bytes(&self.repr) }
    }
}

// ---------------------------------------------------------------------------
// Address components and their mathematical model
// ---------------------------------------------------------------------------

/// One typed address component.
#[derive(Debug, PartialEq, Eq)]
pub enum AddrComponent {
    /// An IPv4 host address, one octet per field.
    Ip4(u8, u8, u8, u8),
    /// A TCP port.
    Tcp(u16),
    /// The relay-circuit marker.
    P2pCircuit,
    /// A trailing peer identifier.
    P2p(NodeId),
}

/// The mathematical model of one address component.
pub enum Comp {
    Ip4(int, int, int, int),
    Tcp(int),
    Circuit,
    Peer(Seq<u8>),
}

impl View for AddrComponent {
    type V = Comp;

    open spec fn view(&self) -> Comp {
        match self {
            AddrComponent::Ip4(a, b, c, d) => Comp::Ip4(*a as int, *b as int, *c as int, *d as int),
            AddrComponent::Tcp(p) => Comp::Tcp(*p as int),
            AddrComponent::P2pCircuit => Comp::Circuit,
            AddrComponent::P2p(id) => Comp::Peer(id@),
        }
    }
}

/// A well-formed component: every numeric field in range, identifiers valid.
pub open spec fn wf_comp(c: Comp) -> bool {
    match c {
        Comp::Ip4(a, b, c0, d) => {
            0 <= a < 256 && 0 <= b < 256 && 0 <= c0 < 256 && 0 <= d < 256
        },
        Comp::Tcp(p) => 0 <= p < 65536,
        Comp::Circuit => true,
        Comp::Peer(s) => valid_id(s),
    }
}

pub open spec fn wf_comps(cs: Seq<Comp>) -> bool {
    forall|i: int| 0 <= i < cs.len() ==> wf_comp(#[trigger] cs[i])
}

/// The model of a component sequence.
pub open spec fn comps_view(ps: Seq<AddrComponent>) -> Seq<Comp> {
    ps.map(|i: int, p: AddrComponent| p@)
}

/// An ordered sequence of address components.
#[derive(Debug, PartialEq, Eq)]
pub struct PeerAddress {
    pub parts: Vec<AddrComponent>,
}

impl View for PeerAddress {
    type V = Seq<Comp>;

    open spec fn view(&self) -> Seq<Comp> {
        comps_view(self.parts@)
    }
}

// ---------------------------------------------------------------------------
// Rendering: the canonical textual form
// ---------------------------------------------------------------------------

pub open spec fn lit_ip4() -> Seq<u8> {
    seq![B_LC_I, B_LC_P, B_4]
}

pub open spec fn lit_tcp() -> Seq<u8> {
    seq![B_LC_T, B_LC_C, B_LC_P]
}

pub open spec fn lit_p2p() -> Seq<u8> {
    seq![B_LC_P, B_2, B_LC_P]
}

pub open spec fn lit_circuit() -> Seq<u8> {
    seq![B_LC_P, B_2, B_LC_P, B_HYPHEN, B_LC_C, B_LC_I, B_LC_R, B_LC_C, B_LC_U, B_LC_I, B_LC_T]
}

pub open spec fn is_digit(b: u8) -> bool {
    B_0 <= b && b <= B_9
}

pub open spec fn digit_val(b: u8) -> int {
    b - B_0
}

pub open spec fn dec_digit(n: int) -> u8 {
    (n + 48) as u8
}

/// Decimal text of `n`, without leading zeros, for 0 <= n < 100000.
pub open spec fn dec_bytes(n: int) -> Seq<u8> {
    if n < 10 {
        seq![dec_digit(n)]
    } else if n < 100 {
        seq![dec_digit(n / 10), dec_digit(n % 10)]
    } else if n < 1000 {
        seq![dec_digit(n / 100), dec_digit((n / 10) % 10), dec_digit(n % 10)]
    } else if n < 10000 {
        seq![
            dec_digit(n / 1000),
            dec_digit((n / 100) % 10),
            dec_digit((n / 10) % 10),
            dec_digit(n % 10),
        ]
    } else {
        seq![
            dec_digit(n / 10000),
            dec_digit((n / 1000) % 10),
            dec_digit((n / 100) % 10),
            dec_digit((n / 10) % 10),
            dec_digit(n % 10),
        ]
    }
}

/// The canonical text of one component.
pub open spec fn comp_bytes(c: Comp) -> Seq<u8> {
    match c {
        Comp::Ip4(a, b, c0, d) => seq![B_SLASH] + lit_ip4() + seq![B_SLASH] + dec_bytes(a) + seq![B_DOT]
            + dec_bytes(b) + seq![B_DOT] + dec_bytes(c0) + seq![B_DOT] + dec_bytes(d),
        Comp::Tcp(p) => seq![B_SLASH] + lit_tcp() + seq![B_SLASH] + dec_bytes(p),
        Comp::Circuit => seq![B_SLASH] + lit_circuit(),
        Comp::Peer(s) => seq![B_SLASH] + lit_p2p() + seq![B_SLASH] + s,
    }
}

/// The canonical text of a component sequence.
pub open spec fn addr_bytes(cs: Seq<Comp>) -> Seq<u8>
    decreases cs.len(),
{
    if cs.len() == 0 {
        Seq::empty()
    } else {
        comp_bytes(cs[0]) + addr_bytes(cs.skip(1))
    }
}

pub proof fn lemma_addr_bytes_snoc(cs: Seq<Comp>, c: Comp)
    ensures
        addr_bytes(cs.push(c)) == addr_bytes(cs) + comp_bytes(c),
    decreases cs.len(),
{
    if cs.len() == 0 {
        assert(cs.push(c)[0] == c);
        assert(cs.push(c).skip(1) =~= Seq::<Comp>::empty());
        assert(addr_bytes(cs.push(c)) == comp_bytes(c) + addr_bytes(Seq::<Comp>::empty()));
        assert(addr_bytes(cs) == Seq::<u8>::empty());
        assert(addr_bytes(cs.push(c)) =~= addr_bytes(cs) + comp_bytes(c));
    } else {
        assert(cs.push(c)[0] == cs[0]);
        assert(cs.push(c).skip(1) =~= cs.skip(1).push(c));
        lemma_addr_bytes_snoc(cs.skip(1), c);
        assert(addr_bytes(cs.push(c)) =~= addr_bytes(cs) + comp_bytes(c));
    }
}

pub proof fn lemma_comps_view_push(ps: Seq<AddrComponent>, p: AddrComponent)
    ensures
        comps_view(ps.push(p)) == comps_view(ps).push(p@),
{
    assert forall|j: int| 0 <= j < ps.len() + 1 implies comps_view(ps.push(p))[j] == comps_view(
        ps,
    ).push(p@)[j] by {
        if j < ps.len() {
            assert(ps.push(p)[j] == ps[j]);
        } else {
            assert(ps.push(p)[j] == p);
        }
    }
    assert(comps_view(ps.push(p)) =~= comps_view(ps).push(p@));
}

/// Appends the decimal text of `v` (v < 100000).
fn push_dec(out: &mut Vec<u8>, v: u32)
    requires
        v < 100000,
    ensures
        final(out)@ == old(out)@ + dec_bytes(v as int),
{
    let ghost before = out@;
    if v < 10 {
        out.push((v + 48) as u8);
    } else if v < 100 {
        out.push((v / 10 + 48) as u8);
        out.push((v % 10 + 48) as u8);
    } else if v < 1000 {
        out.push((v / 100 + 48) as u8);
        out.push((v / 10 % 10 + 48) as u8);
        out.push((v % 10 + 48) as u8);
    } else if v < 10000 {
        out.push((v / 1000 + 48) as u8);
        out.push((v / 100 % 10 + 48) as u8);
        out.push((v / 10 % 10 + 48) as u8);
        out.push((v % 10 + 48) as u8);
    } else {
        out.push((v / 10000 + 48) as u8);
        out.push((v / 1000 % 10 + 48) as u8);
        out.push((v / 100 % 10 + 48) as u8);
        out.push((v / 10 % 10 + 48) as u8);
        out.push((v % 10 + 48) as u8);
    }
    proof {
        assert(out@ =~= before + dec_bytes(v as int));
    }
}

impl PeerAddress {
    /// Every component of this address is well formed.
    pub open spec fn wf(&self) -> bool {
        wf_comps(self@)
    }

    /// The address with no components.
    pub fn empty() -> (r: PeerAddress)
        ensures
            r@ == Seq::<Comp>::empty(),
    {
        let r = PeerAddress { parts: Vec::new() };
        proof {
            assert(r@ =~= Seq::<Comp>::empty());
        }
        r
    }

    /// The canonical textual form of this address.
    #[verifier::rlimit(100)]
    pub fn render(&self) -> (r: Vec<u8>)
        ensures
            r@ == addr_bytes(self@),
    {
        let mut out: Vec<u8> = Vec::new();
        let mut i: usize = 0;
        while i < self.parts.len()
            invariant
                i <= self.parts@.len(),
                out@ == addr_bytes(self@.take(i as int)),
            decreases self.parts@.len() - i,
        {
            let ghost done = self@.take(i as int);
            let ghost c = self@[i as int];
            proof {
                assert(self@.take(i + 1) =~= done.push(c));
                lemma_addr_bytes_snoc(done, c);
            }
            let ghost before = out@;
            match &self.parts[i] {
                AddrComponent::Ip4(a, b, c0, d) => {
                    out.push(B_SLASH);
                    out.push(B_LC_I);
                    out.push(B_LC_P);
                    out.push(B_4);
                    out.push(B_SLASH);
                    push_dec(&mut out, *a as u32);
                    out.push(B_DOT);
                    push_dec(&mut out, *b as u32);
                    out.push(B_DOT);
                    push_dec(&mut out, *c0 as u32);
                    out.push(B_DOT);
                    push_dec(&mut out, *d as u32);
                },
                AddrComponent::Tcp(p) => {
                    out.push(B_SLASH);
                    out.push(B_LC_T);
                    out.push(B_LC_C);
                    out.push(B_LC_P);
                    out.push(B_SLASH);
                    push_dec(&mut out, *p as u32);
                },
                AddrComponent::P2pCircuit => {
                    out.push(B_SLASH);
                    out.push(B_LC_P);
                    out.push(B_2);
                    out.push(B_LC_P);
                    out.push(B_HYPHEN);
                    out.push(B_LC_C);
                    out.push(B_LC_I);
                    out.push(B_LC_R);
                    out.push(B_LC_C);
                    out.push(B_LC_U);
                    out.push(B_LC_I);
                    out.push(B_LC_T);
                },
                AddrComponent::P2p(id) => {
                    out.push(B_SLASH);
                    out.push(B_LC_P);
                    out.push(B_2);
                    out.push(B_LC_P);
                    out.push(B_SLASH);
                    let mut j: usize = 0;
                    let ghost mid = out@;
                    while j < id.repr.len()
                        invariant
                            j <= id.repr@.len(),
                            out@ == mid + id.repr@.take(j as int),
                        decreases id.repr@.len() - j,
                    {
                        out.push(id.repr[j]);
                        proof {
                            assert(out@ =~= mid + id.repr@.take(j + 1));
                        }
                        j = j + 1;
                    }
                    proof {
                        assert(id.repr@.take(id.repr@.len() as int) =~= id.repr@);
                    }
                },
            }
            proof {
                assert(out@ =~= before + comp_bytes(c));
            }
            i = i + 1;
        }
        proof {
            assert(self@.take(self@.len() as int) =~= self@);
        }
        out
    }

    /// A copy of this address.
    pub fn duplicate(&self) -> (r: PeerAddress)
        ensures
            r@ == self@,
    {
        let mut parts: Vec<AddrComponent> = Vec::new();
        let mut i: usize = 0;
        while i < self.parts.len()
            invariant
                i <= self.parts@.len(),
                comps_view(parts@) == self@.take(i as int),
            decreases self.parts@.len() - i,
        {
            let c = match &self.parts[i] {
                AddrComponent::Ip4(a, b, c0, d) => AddrComponent::Ip4(*a, *b, *c0, *d),
                AddrComponent::Tcp(p) => AddrComponent::Tcp(*p),
                AddrComponent::P2pCircuit => AddrComponent::P2pCircuit,
                AddrComponent::P2p(id) => AddrComponent::P2p(id.duplicate()),
            };
            let ghost before = parts@;
            parts.push(c);
            proof {
                lemma_comps_view_push(before, c);
                assert(self@[i as int] == self.parts@[i as int]@);
                assert(comps_view(parts@) =~= self@.take(i + 1));
            }
            i = i + 1;
        }
        proof {
            assert(self@.take(self@.len() as int) =~= self@);
        }
        PeerAddress { parts }
    }

    /// This address extended with the relay-circuit marker.
    pub fn with_circuit(&self) -> (r: PeerAddress)
        ensures
            r@ == self@.push(Comp::Circuit),
    {
        let mut r = self.duplicate();
        r.parts.push(AddrComponent::P2pCircuit);
        proof {
            assert(r@ =~= self@.push(Comp::Circuit));
        }
        r
    }

    /// This address extended with a trailing peer identifier.
    pub fn with_peer(&self, id: &NodeId) -> (r: PeerAddress)
        ensures
            r@ == self@.push(Comp::Peer(id@)),
    {
        let mut r = self.duplicate();
        r.parts.push(AddrComponent::P2p(id.duplicate()));
        proof {
            assert(r@ =~= self@.push(Comp::Peer(id@)));
        }
        r
    }

    /// Appends a trailing peer identifier in place.
    pub fn push_peer(&mut self, id: &NodeId)
        ensures
            final(self)@ == old(self)@.push(Comp::Peer(id@)),
    {
        self.parts.push(AddrComponent::P2p(id.duplicate()));
        proof {
            assert(self@ =~= old(self)@.push(Comp::Peer(id@)));
        }
    }

    /// The number of components.
    pub fn len(&self) -> (r: usize)
        ensures
            r == self@.len(),
    {
        self.parts.len()
    }
}

/// The model of the local listen address for a preferred port.
pub open spec fn local_listen_model(preferred_port: Option<u16>) -> Seq<Comp> {
    seq![
        Comp::Ip4(0, 0, 0, 0),
        Comp::Tcp(
            match preferred_port {
                Some(p) => p as int,
                None => 0,
            },
        ),
    ]
}

/// The local listen address: unspecified IPv4 host with the preferred port,
/// or port 0 (OS-assigned) when none is given.
pub fn local_listen_addr(preferred_port: Option<u16>) -> (r: PeerAddress)
    ensures
        r@ == local_listen_model(preferred_port),
{
    let port: u16 = match preferred_port {
        Some(p) => p,
        None => 0,
    };
    let mut parts: Vec<AddrComponent> = Vec::new();
    parts.push(AddrComponent::Ip4(0, 0, 0, 0));
    parts.push(AddrComponent::Tcp(port));
    let r = PeerAddress { parts };
    proof {
        assert(r@ =~= local_listen_model(preferred_port));
    }
    r
}

// ---------------------------------------------------------------------------
// Parsing: the strict grammar of the textual form
// ---------------------------------------------------------------------------

/// Index of the first `sep` at or after `i`, or the length when none follows.
pub open spec fn scan_to(s: Seq<u8>, i: int, sep: u8) -> int
    decreases s.len() - i,
{
    if i < 0 || i >= s.len() {
        s.len() as int
    } else if s[i] == sep {
        i
    } else {
        scan_to(s, i + 1, sep)
    }
}

pub proof fn lemma_scan_to(s: Seq<u8>, i: int, sep: u8)
    requires
        0 <= i <= s.len(),
    ensures
        i <= scan_to(s, i, sep) <= s.len(),
        scan_to(s, i, sep) < s.len() ==> s[scan_to(s, i, sep)] == sep,
        forall|j: int| i <= j < scan_to(s, i, sep) ==> s[j] != sep,
    decreases s.len() - i,
{
    if i < s.len() && s[i] != sep {
        lemma_scan_to(s, i + 1, sep);
    }
}

/// The numeric value of a digit string (most significant first).
pub open spec fn tok_val(t: Seq<u8>) -> int
    decreases t.len(),
{
    if t.len() == 0 {
        0
    } else {
        tok_val(t.drop_last()) * 10 + digit_val(t.last())
    }
}

pub open spec fn all_digits(t: Seq<u8>) -> bool {
    forall|i: int| 0 <= i < t.len() ==> is_digit(#[trigger] t[i])
}

pub proof fn lemma_tok_val_nonneg(t: Seq<u8>)
    requires
        all_digits(t),
    ensures
        tok_val(t) >= 0,
    decreases t.len(),
{
    if t.len() > 0 {
        assert(forall|i: int| 0 <= i < t.drop_last().len() ==> is_digit(#[trigger] t.drop_last()[i]));
        lemma_tok_val_nonneg(t.drop_last());
    }
}

/// A decimal token accepted with bound `max`: non-empty digits whose
/// canonical rendering is the token itself (so no leading zeros).
pub open spec fn dec_tok_of(t: Seq<u8>, max: int) -> Option<int> {
    if t.len() >= 1 && all_digits(t) && tok_val(t) <= max && dec_bytes(tok_val(t)) == t {
        Some(tok_val(t))
    } else {
        None
    }
}

/// A dotted-quad IPv4 token: four decimal octets separated by dots.
pub open spec fn ip4_tok_of(t: Seq<u8>) -> Option<(int, int, int, int)> {
    let d1 = scan_to(t, 0, B_DOT);
    let d2 = scan_to(t, d1 + 1, B_DOT);
    let d3 = scan_to(t, d2 + 1, B_DOT);
    if d1 < t.len() && d2 < t.len() && d3 < t.len() && scan_to(t, d3 + 1, B_DOT) == t.len() {
        match (
            dec_tok_of(t.subrange(0, d1), 255),
            dec_tok_of(t.subrange(d1 + 1, d2), 255),
            dec_tok_of(t.subrange(d2 + 1, d3), 255),
            dec_tok_of(t.subrange(d3 + 1, t.len() as int), 255),
        ) {
            (Some(a), Some(b), Some(c), Some(d)) => Some((a, b, c, d)),
            _ => None,
        }
    } else {
        None
    }
}

/// The component sequence encoded by `s[i..]`, when `s[i..]` is a canonical
/// address text; `None` otherwise.
pub open spec fn parse_rest(s: Seq<u8>, i: int) -> Option<Seq<Comp>>
    decreases s.len() - i,
    when 0 <= i <= s.len()
    via parse_rest_dec
{
    if i == s.len() {
        Some(Seq::empty())
    } else if s[i] != B_SLASH {
        None
    } else {
        let ke = scan_to(s, i + 1, B_SLASH);
        let kw = s.subrange(i + 1, ke);
        if kw == lit_circuit() {
            match parse_rest(s, ke) {
                Some(tail) => Some(seq![Comp::Circuit] + tail),
                None => None,
            }
        } else if kw == lit_ip4() || kw == lit_tcp() || kw == lit_p2p() {
            if ke == s.len() {
                None
            } else {
                let pe = scan_to(s, ke + 1, B_SLASH);
                let pay = s.subrange(ke + 1, pe);
                let comp = if kw == lit_ip4() {
                    match ip4_tok_of(pay) {
                        Some((a, b, c, d)) => Some(Comp::Ip4(a, b, c, d)),
                        None => None,
                    }
                } else if kw == lit_tcp() {
                    match dec_tok_of(pay, 65535) {
                        Some(p) => Some(Comp::Tcp(p)),
                        None => None,
                    }
                } else {
                    if valid_id(pay) {
                        Some(Comp::Peer(pay))
                    } else {
                        None
                    }
                };
                match comp {
                    Some(c) => match parse_rest(s, pe) {
                        Some(tail) => Some(seq![c] + tail),
                        None => None,
                    },
                    None => None,
                }
            }
        } else {
            None
        }
    }
}

#[via_fn]
proof fn parse_rest_dec(s: Seq<u8>, i: int) {
    if 0 <= i && i < s.len() {
        lemma_scan_to(s, i + 1, B_SLASH);
        let ke = scan_to(s, i + 1, B_SLASH);
        if ke < s.len() {
            lemma_scan_to(s, ke + 1, B_SLASH);
        }
    }
}

/// Powers of ten up to the five-digit range of the decimal tokens.
pub open spec fn pow10_small(k: int) -> int {
    if k <= 0 {
        1
    } else if k == 1 {
        10
    } else if k == 2 {
        100
    } else if k == 3 {
        1000
    } else if k == 4 {
        10000
    } else {
        100000
    }
}

/// Index of the first `sep` at or after `start`, or the length.
fn find_byte(s: &Vec<u8>, start: usize, sep: u8) -> (r: usize)
    requires
        start <= s@.len(),
    ensures
        r == scan_to(s@, start as int, sep),
    decreases s@.len() - start,
{
    let mut i = start;
    while i < s.len()
        invariant
            start <= i <= s@.len(),
            scan_to(s@, start as int, sep) == scan_to(s@, i as int, sep),
            forall|j: int| start <= j < i ==> s@[j] != sep,
        decreases s@.len() - i,
    {
        if s[i] == sep {
            return i;
        }
        i = i + 1;
    }
    i
}

/// The bytes `s[start..end]` equal `t` exactly.
fn region_eq_vec(s: &Vec<u8>, start: usize, end: usize, t: &Vec<u8>) -> (r: bool)
    requires
        start <= end <= s@.len(),
    ensures
        r <==> s@.subrange(start as int, end as int) == t@,
{
    let ghost sub = s@.subrange(start as int, end as int);
    if end - start != t.len() {
        return false;
    }
    let mut j: usize = 0;
    while j < t.len()
        invariant
            j <= t@.len(),
            t@.len() == end - start,
            start <= end <= s@.len(),
            sub == s@.subrange(start as int, end as int),
            forall|k: int| 0 <= k < j ==> sub[k] == t@[k],
        decreases t@.len() - j,
    {
        if s[start + j] != t[j] {
            proof {
                assert(sub[j as int] == s@[start + j]);
            }
            return false;
        }
        proof {
            assert(sub[j as int] == s@[start + j]);
        }
        j = j + 1;
    }
    proof {
        assert(sub =~= t@);
    }
    true
}

/// Copies the bytes `s[start..end]`.
fn copy_region(s: &Vec<u8>, start: usize, end: usize) -> (r: Vec<u8>)
    requires
        start <= end <= s@.len(),
    ensures
        r@ == s@.subrange(start as int, end as int),
{
    let mut out: Vec<u8> = Vec::new();
    let mut i = start;
    while i < end
        invariant
            start <= i <= end <= s@.len(),
            out@ == s@.subrange(start as int, i as int),
        decreases end - i,
    {
        out.push(s[i]);
        proof {
            assert(out@ =~= s@.subrange(start as int, i + 1));
        }
        i = i + 1;
    }
    out
}

/// Parses the decimal token `s[start..end]` with bound `max < 100000`.
fn parse_dec(s: &Vec<u8>, start: usize, end: usize, max: u32) -> (r: Option<u32>)
    requires
        start <= end <= s@.len(),
        max < 100000,
    ensures
        match r {
            Some(v) => dec_tok_of(s@.subrange(start as int, end as int), max as int) == Some(
                v as int,
            ),
            None => dec_tok_of(s@.subrange(start as int, end as int), max as int) is None,
        },
{
    let ghost t = s@.subrange(start as int, end as int);
    let t_len = end - start;
    if t_len < 1 {
        return None;
    }
    if t_len > 5 {
        proof {
            assert(dec_bytes(tok_val(t)).len() <= 5);
        }
        return None;
    }
    let mut v: u32 = 0;
    let mut i = start;
    while i < end
        invariant
            start <= i <= end <= s@.len(),
            end - start <= 5,
            t == s@.subrange(start as int, end as int),
            all_digits(t.take(i - start)),
            v as int == tok_val(t.take(i - start)),
            v < pow10_small(i - start),
        decreases end - i,
    {
        let b = s[i];
        if !(B_0 <= b && b <= B_9) {
            proof {
                assert(t[i - start] == s@[i as int]);
            }
            return None;
        }
        proof {
            assert(t[i - start] == s@[i as int]);
            assert(t.take(i - start + 1).drop_last() =~= t.take(i - start));
            assert(t.take(i - start + 1).last() == t[i - start]);
            assert(forall|k: int|
                0 <= k < i - start + 1 ==> is_digit(#[trigger] t.take(i - start + 1)[k]));
        }
        v = v * 10 + (b - B_0) as u32;
        i = i + 1;
    }
    proof {
        assert(t.take(end - start) =~= t);
    }
    if v > max {
        return None;
    }
    let mut dv: Vec<u8> = Vec::new();
    push_dec(&mut dv, v);
    if region_eq_vec(s, start, end, &dv) {
        Some(v)
    } else {
        None
    }
}

/// Parses the dotted-quad IPv4 token `s[start..end]`.
fn parse_ip4(s: &Vec<u8>, start: usize, end: usize) -> (r: Option<(u8, u8, u8, u8)>)
    requires
        start <= end <= s@.len(),
    ensures
        match r {
            Some(q) => ip4_tok_of(s@.subrange(start as int, end as int)) == Some(
                (q.0 as int, q.1 as int, q.2 as int, q.3 as int),
            ),
            None => ip4_tok_of(s@.subrange(start as int, end as int)) is None,
        },
{
    let t = copy_region(s, start, end);
    let d1 = find_byte(&t, 0, B_DOT);
    proof {
        lemma_scan_to(t@, 0, B_DOT);
    }
    if d1 == t.len() {
        return None;
    }
    let d2 = find_byte(&t, d1 + 1, B_DOT);
    proof {
        lemma_scan_to(t@, d1 + 1, B_DOT);
    }
    if d2 == t.len() {
        return None;
    }
    let d3 = find_byte(&t, d2 + 1, B_DOT);
    proof {
        lemma_scan_to(t@, d2 + 1, B_DOT);
    }
    if d3 == t.len() {
        return None;
    }
    let d4 = find_byte(&t, d3 + 1, B_DOT);
    proof {
        lemma_scan_to(t@, d3 + 1, B_DOT);
    }
    if d4 != t.len() {
        return None;
    }
    let a = match parse_dec(&t, 0, d1, 255) {
        Some(a) => a,
        None => {
            return None;
        },
    };
    let b = match parse_dec(&t, d1 + 1, d2, 255) {
        Some(b) => b,
        None => {
            return None;
        },
    };
    let c = match parse_dec(&t, d2 + 1, d3, 255) {
        Some(c) => c,
        None => {
            return None;
        },
    };
    let d = match parse_dec(&t, d3 + 1, t.len(), 255) {
        Some(d) => d,
        None => {
            return None;
        },
    };
    Some((a as u8, b as u8, c as u8, d as u8))
}

/// Parses a canonical address text into its components.
///
/// Succeeds exactly on the texts the grammar `parse_rest` accepts, and then
/// returns precisely the encoded component sequence.
#[verifier::rlimit(100)]
pub fn parse_addr(s: &Vec<u8>) -> (r: Option<PeerAddress>)
    ensures
        match r {
            Some(a) => parse_rest(s@, 0) == Some(a@),
            None => parse_rest(s@, 0) is None,
        },
{
    let mut parts: Vec<AddrComponent> = Vec::new();
    let mut i: usize = 0;
    proof {
        assert(comps_view(parts@) =~= Seq::<Comp>::empty());
    }
    while i < s.len()
        invariant
            i <= s@.len(),
            parse_rest(s@, i as int) is Some ==> parse_rest(s@, 0) is Some
                && parse_rest(s@, 0)->Some_0 == comps_view(parts@) + parse_rest(
                s@,
                i as int,
            )->Some_0,
            parse_rest(s@, i as int) is None ==> parse_rest(s@, 0) is None,
        decreases s@.len() - i,
    {
        if s[i] != B_SLASH {
            return None;
        }
        let ke = find_byte(s, i + 1, B_SLASH);
        proof {
            lemma_scan_to(s@, i + 1, B_SLASH);
        }
        let ghost kw = s@.subrange(i + 1, ke as int);
        proof {
            assert(kw.len() == ke - (i + 1));
            assert(forall|j: int| 0 <= j < kw.len() ==> kw[j] == s@[i + 1 + j]);
        }
        let klen = ke - (i + 1);
        let c: AddrComponent;
        let next: usize;
        if klen == 11 && s[i + 1] == B_LC_P && s[i + 2] == B_2 && s[i + 3] == B_LC_P && s[i + 4]
            == B_HYPHEN && s[i + 5] == B_LC_C && s[i + 6] == B_LC_I && s[i + 7] == B_LC_R && s[i + 8]
            == B_LC_C && s[i + 9] == B_LC_U && s[i + 10] == B_LC_I && s[i + 11] == B_LC_T {
            proof {
                assert(kw =~= lit_circuit());
            }
            c = AddrComponent::P2pCircuit;
            next = ke;
        } else if klen == 3 && s[i + 1] == B_LC_I && s[i + 2] == B_LC_P && s[i + 3] == B_4 {
            proof {
                assert(kw =~= lit_ip4());
                assert(kw != lit_circuit());
            }
            if ke == s.len() {
                return None;
            }
            let pe = find_byte(s, ke + 1, B_SLASH);
            proof {
                lemma_scan_to(s@, ke + 1, B_SLASH);
            }
            match parse_ip4(s, ke + 1, pe) {
                Some((a, b, c0, d)) => {
                    c = AddrComponent::Ip4(a, b, c0, d);
                    next = pe;
                },
                None => {
                    return None;
                },
            }
        } else if klen == 3 && s[i + 1] == B_LC_T && s[i + 2] == B_LC_C && s[i + 3] == B_LC_P {
            proof {
                assert(kw =~= lit_tcp());
                assert(kw != lit_circuit());
                assert(kw != lit_ip4());
            }
            if ke == s.len() {
                return None;
            }
            let pe = find_byte(s, ke + 1, B_SLASH);
            proof {
                lemma_scan_to(s@, ke + 1, B_SLASH);
            }
            match parse_dec(s, ke + 1, pe, 65535) {
                Some(p) => {
                    c = AddrComponent::Tcp(p as u16);
                    next = pe;
                },
                None => {
                    return None;
                },
            }
        } else if klen == 3 && s[i + 1] == B_LC_P && s[i + 2] == B_2 && s[i + 3] == B_LC_P {
            proof {
                assert(kw =~= lit_p2p());
                assert(kw != lit_circuit());
                assert(kw != lit_ip4());
                assert(kw != lit_tcp());
            }
            if ke == s.len() {
                return None;
            }
            let pe = find_byte(s, ke + 1, B_SLASH);
            proof {
                lemma_scan_to(s@, ke + 1, B_SLASH);
            }
            if check_base58(s, ke + 1, pe) {
                let id_bytes = copy_region(s, ke + 1, pe);
                c = AddrComponent::P2p(NodeId { repr: id_bytes });
                next = pe;
            } else {
                return None;
            }
        } else {
            proof {
                assert(kw != lit_circuit());
                assert(kw != lit_ip4());
                assert(kw != lit_tcp());
                assert(kw != lit_p2p());
            }
            return None;
        }
        let ghost before = parts@;
        parts.push(c);
        proof {
            lemma_comps_view_push(before, c);
            assert(parse_rest(s@, i as int) is Some ==> parse_rest(s@, i as int)->Some_0
                == seq![c@] + parse_rest(s@, next as int)->Some_0);
            if parse_rest(s@, next as int) is Some {
                assert(comps_view(before) + (seq![c@] + parse_rest(s@, next as int)->Some_0)
                    =~= comps_view(parts@) + parse_rest(s@, next as int)->Some_0);
            }
        }
        i = next;
    }
    proof {
        assert(parse_rest(s@, i as int) == Some(Seq::<Comp>::empty()));
        assert(comps_view(parts@) + Seq::<Comp>::empty() =~= comps_view(parts@));
    }
    Some(PeerAddress { parts })
}

/// Soundness of the grammar: whatever `parse_rest` accepts from position `i`
/// is well formed and renders back to exactly the bytes it was read from.
#[verifier::rlimit(100)]
#[verifier::spinoff_prover]
pub proof fn lemma_parse_sound(s: Seq<u8>, i: int)
    requires
        0 <= i <= s.len(),
        parse_rest(s, i) is Some,
    ensures
        wf_comps(parse_rest(s, i)->Some_0),
        addr_bytes(parse_rest(s, i)->Some_0) == s.subrange(i, s.len() as int),
    decreases s.len() - i,
{
    let cs = parse_rest(s, i)->Some_0;
    if i == s.len() {
        assert(s.subrange(i, s.len() as int) =~= Seq::<u8>::empty());
        assert(addr_bytes(cs) =~= s.subrange(i, s.len() as int));
    } else {
        lemma_scan_to(s, i + 1, B_SLASH);
        let ke = scan_to(s, i + 1, B_SLASH);
        let kw = s.subrange(i + 1, ke);
        if kw == lit_circuit() {
            let tail = parse_rest(s, ke)->Some_0;
            lemma_parse_sound(s, ke);
            assert(cs == seq![Comp::Circuit] + tail);
            assert(cs[0] == Comp::Circuit);
            assert(cs.skip(1) =~= tail);
            assert(forall|j: int| 0 <= j < cs.len() ==> wf_comp(#[trigger] cs[j]));
            assert(comp_bytes(Comp::Circuit) =~= s.subrange(i, ke));
            assert(addr_bytes(cs) == comp_bytes(Comp::Circuit) + addr_bytes(tail));
            assert(addr_bytes(cs) =~= s.subrange(i, s.len() as int));
        } else if kw == lit_ip4() || kw == lit_tcp() || kw == lit_p2p() {
            lemma_scan_to(s, ke + 1, B_SLASH);
            let pe = scan_to(s, ke + 1, B_SLASH);
            let pay = s.subrange(ke + 1, pe);
            let tail = parse_rest(s, pe)->Some_0;
            lemma_parse_sound(s, pe);
            let c = cs[0];
            assert(cs.skip(1) =~= tail);
            if kw == lit_ip4() {
                let d1 = scan_to(pay, 0, B_DOT);
                let d2 = scan_to(pay, d1 + 1, B_DOT);
                let d3 = scan_to(pay, d2 + 1, B_DOT);
                lemma_scan_to(pay, 0, B_DOT);
                lemma_scan_to(pay, d1 + 1, B_DOT);
                lemma_scan_to(pay, d2 + 1, B_DOT);
                let ta = pay.subrange(0, d1);
                let tb = pay.subrange(d1 + 1, d2);
                let tc = pay.subrange(d2 + 1, d3);
                let td = pay.subrange(d3 + 1, pay.len() as int);
                let a = tok_val(ta);
                let b = tok_val(tb);
                let c0 = tok_val(tc);
                let d = tok_val(td);
                assert(c == Comp::Ip4(a, b, c0, d));
                lemma_tok_val_nonneg(ta);
                lemma_tok_val_nonneg(tb);
                lemma_tok_val_nonneg(tc);
                lemma_tok_val_nonneg(td);
                assert(wf_comp(c));
                assert(pay =~= ta + seq![B_DOT] + tb + seq![B_DOT] + tc + seq![B_DOT] + td);
                assert(comp_bytes(c) =~= s.subrange(i, pe));
            } else if kw == lit_tcp() {
                let p = tok_val(pay);
                assert(c == Comp::Tcp(p));
                lemma_tok_val_nonneg(pay);
                assert(wf_comp(c));
                assert(comp_bytes(c) =~= s.subrange(i, pe));
            } else {
                assert(c == Comp::Peer(pay));
                assert(wf_comp(c));
                assert(comp_bytes(c) =~= s.subrange(i, pe));
            }
            assert(forall|j: int| 0 <= j < cs.len() ==> wf_comp(#[trigger] cs[j]));
            assert(addr_bytes(cs) == comp_bytes(c) + addr_bytes(tail));
            assert(addr_bytes(cs) =~= s.subrange(i, s.len() as int));
        }
    }
}

pub proof fn lemma_scan_to_exact(s: Seq<u8>, i: int, j: int, sep: u8)
    requires
        0 <= i <= j <= s.len(),
        forall|k: int| i <= k < j ==> s[k] != sep,
        j == s.len() || s[j] == sep,
    ensures
        scan_to(s, i, sep) == j,
    decreases j - i,
{
    if i < j {
        lemma_scan_to_exact(s, i + 1, j, sep);
    }
}

/// The decimal text of an in-range value consists of digits.
pub proof fn lemma_dec_bytes_digits(n: int)
    requires
        0 <= n < 100000,
    ensures
        all_digits(dec_bytes(n)),
        1 <= dec_bytes(n).len() <= 5,
{
}

/// Reading the decimal text of an in-range value back gives the value.
pub proof fn lemma_tok_val_dec_bytes(n: int)
    requires
        0 <= n < 100000,
    ensures
        tok_val(dec_bytes(n)) == n,
{
    reveal_with_fuel(tok_val, 6);
    let t = dec_bytes(n);
    if n < 10 {
        assert(tok_val(t) == n);
    } else if n < 100 {
        assert(t.drop_last() =~= seq![dec_digit(n / 10)]);
        assert(tok_val(t) == n);
    } else if n < 1000 {
        assert(t.drop_last() =~= seq![dec_digit(n / 100), dec_digit((n / 10) % 10)]);
        assert(t.drop_last().drop_last() =~= seq![dec_digit(n / 100)]);
        assert(tok_val(t) == n);
    } else if n < 10000 {
        assert(t.drop_last() =~= seq![
            dec_digit(n / 1000),
            dec_digit((n / 100) % 10),
            dec_digit((n / 10) % 10),
        ]);
        assert(t.drop_last().drop_last() =~= seq![dec_digit(n / 1000), dec_digit((n / 100) % 10)]);
        assert(t.drop_last().drop_last().drop_last() =~= seq![dec_digit(n / 1000)]);
        assert(tok_val(t) == n);
    } else {
        assert(t.drop_last() =~= seq![
            dec_digit(n / 10000),
            dec_digit((n / 1000) % 10),
            dec_digit((n / 100) % 10),
            dec_digit((n / 10) % 10),
        ]);
        assert(t.drop_last().drop_last() =~= seq![
            dec_digit(n / 10000),
            dec_digit((n / 1000) % 10),
            dec_digit((n / 100) % 10),
        ]);
        assert(t.drop_last().drop_last().drop_last() =~= seq![
            dec_digit(n / 10000),
            dec_digit((n / 1000) % 10),
        ]);
        assert(t.drop_last().drop_last().drop_last().drop_last() =~= seq![dec_digit(n / 10000)]);
        assert(n / 10000 == (((n / 10) / 10) / 10) / 10);
        assert(tok_val(t) == n);
    }
}

/// The decimal text of an in-range value is accepted back as that value.
pub proof fn lemma_dec_tok_of_dec_bytes(n: int, max: int)
    requires
        0 <= n <= max < 100000,
    ensures
        dec_tok_of(dec_bytes(n), max) == Some(n),
{
    lemma_dec_bytes_digits(n);
    lemma_tok_val_dec_bytes(n);
}

/// A rendered non-empty component sequence starts with a slash.
pub proof fn lemma_addr_bytes_head(cs: Seq<Comp>)
    requires
        cs.len() > 0,
    ensures
        addr_bytes(cs).len() >= 1,
        addr_bytes(cs)[0] == B_SLASH,
{
    assert(comp_bytes(cs[0]).len() >= 1 && comp_bytes(cs[0])[0] == B_SLASH) by {
        match cs[0] {
            Comp::Ip4(a, b, c0, d) => {},
            Comp::Tcp(p) => {},
            Comp::Circuit => {},
            Comp::Peer(q) => {},
        }
    }
}

/// A rendered dotted quad is read back as its four octets.
proof fn lemma_ip4_payload(pay: Seq<u8>, a: int, b: int, c0: int, d: int)
    requires
        0 <= a < 256 && 0 <= b < 256 && 0 <= c0 < 256 && 0 <= d < 256,
        pay == dec_bytes(a) + seq![B_DOT] + dec_bytes(b) + seq![B_DOT] + dec_bytes(c0) + seq![
            B_DOT,
        ] + dec_bytes(d),
    ensures
        ip4_tok_of(pay) == Some((a, b, c0, d)),
{
    lemma_dec_bytes_digits(a);
    lemma_dec_bytes_digits(b);
    lemma_dec_bytes_digits(c0);
    lemma_dec_bytes_digits(d);
    lemma_dec_tok_of_dec_bytes(a, 255);
    lemma_dec_tok_of_dec_bytes(b, 255);
    lemma_dec_tok_of_dec_bytes(c0, 255);
    lemma_dec_tok_of_dec_bytes(d, 255);
    let la = dec_bytes(a).len() as int;
    let lb = dec_bytes(b).len() as int;
    let lc = dec_bytes(c0).len() as int;
    let ld = dec_bytes(d).len() as int;
    let p1 = la;
    let p2 = la + 1 + lb;
    let p3 = la + lb + 2 + lc;
    assert(pay.len() == la + lb + lc + ld + 3);
    assert(pay[p1] == B_DOT);
    assert(pay[p2] == B_DOT);
    assert(pay[p3] == B_DOT);
    assert forall|k: int| 0 <= k < p1 implies pay[k] != B_DOT by {
        assert(pay[k] == dec_bytes(a)[k]);
        assert(is_digit(dec_bytes(a)[k]));
    }
    assert forall|k: int| p1 + 1 <= k < p2 implies pay[k] != B_DOT by {
        assert(pay[k] == dec_bytes(b)[k - (p1 + 1)]);
        assert(is_digit(dec_bytes(b)[k - (p1 + 1)]));
    }
    assert forall|k: int| p2 + 1 <= k < p3 implies pay[k] != B_DOT by {
        assert(pay[k] == dec_bytes(c0)[k - (p2 + 1)]);
        assert(is_digit(dec_bytes(c0)[k - (p2 + 1)]));
    }
    assert forall|k: int| p3 + 1 <= k < pay.len() implies pay[k] != B_DOT by {
        assert(pay[k] == dec_bytes(d)[k - (p3 + 1)]);
        assert(is_digit(dec_bytes(d)[k - (p3 + 1)]));
    }
    lemma_scan_to_exact(pay, 0, p1, B_DOT);
    lemma_scan_to_exact(pay, p1 + 1, p2, B_DOT);
    lemma_scan_to_exact(pay, p2 + 1, p3, B_DOT);
    lemma_scan_to_exact(pay, p3 + 1, pay.len() as int, B_DOT);
    assert(pay.subrange(0, p1) =~= dec_bytes(a));
    assert(pay.subrange(p1 + 1, p2) =~= dec_bytes(b));
    assert(pay.subrange(p2 + 1, p3) =~= dec_bytes(c0));
    assert(pay.subrange(p3 + 1, pay.len() as int) =~= dec_bytes(d));
}

/// One parsing step: with the canonical text of a well-formed component
/// standing at `i`, followed by nothing or by a further slash-led tail,
/// `parse_rest` consumes exactly that component.
///
/// The four lemmas below state this for each component kind.
#[verifier::rlimit(100)]
proof fn lemma_parse_step_circuit(s: Seq<u8>, i: int, tail: Seq<u8>)
    requires
        0 <= i <= s.len(),
        s.subrange(i, s.len() as int) == comp_bytes(Comp::Circuit) + tail,
        tail.len() == 0 || tail[0] == B_SLASH,
    ensures
        ({
            let cl = comp_bytes(Comp::Circuit).len() as int;
            parse_rest(s, i) == (match parse_rest(s, i + cl) {
                Some(t) => Some(seq![Comp::Circuit] + t),
                None => None,
            })
        }),
{
    let suffix = s.subrange(i, s.len() as int);
    let cb = comp_bytes(Comp::Circuit);
    let cl = cb.len() as int;
    assert(suffix == cb + tail);
    assert(suffix.len() == cb.len() + tail.len());
    assert(forall|k: int| 0 <= k < suffix.len() ==> #[trigger] suffix[k] == s[i + k]);
    assert(s[i] == suffix[0]);
    assert(i + cl == s.len() || s[i + cl] == suffix[cl]);
    assert forall|k: int| i + 1 <= k < i + cl implies s[k] != B_SLASH by {
        assert(s[k] == suffix[k - i]);
        assert(suffix[k - i] == cb[k - i]);
    }
    lemma_scan_to_exact(s, i + 1, i + cl, B_SLASH);
    assert forall|j: int| 0 <= j < 11 implies s.subrange(i + 1, i + cl)[j] == lit_circuit()[j] by {
        assert(s.subrange(i + 1, i + cl)[j] == s[i + 1 + j]);
        assert(s[i + 1 + j] == suffix[1 + j]);
        assert(suffix[1 + j] == cb[1 + j]);
    }
    assert(s.subrange(i + 1, i + cl) =~= lit_circuit());
}

#[verifier::rlimit(100)]
proof fn lemma_parse_step_tcp(s: Seq<u8>, i: int, p: int, tail: Seq<u8>)
    requires
        0 <= i <= s.len(),
        0 <= p < 65536,
        s.subrange(i, s.len() as int) == comp_bytes(Comp::Tcp(p)) + tail,
        tail.len() == 0 || tail[0] == B_SLASH,
    ensures
        ({
            let cl = comp_bytes(Comp::Tcp(p)).len() as int;
            parse_rest(s, i) == (match parse_rest(s, i + cl) {
                Some(t) => Some(seq![Comp::Tcp(p)] + t),
                None => None,
            })
        }),
{
    let suffix = s.subrange(i, s.len() as int);
    let cb = comp_bytes(Comp::Tcp(p));
    let cl = cb.len() as int;
    lemma_dec_bytes_digits(p);
    assert(suffix == cb + tail);
    assert(suffix.len() == cb.len() + tail.len());
    assert(forall|k: int| 0 <= k < suffix.len() ==> #[trigger] suffix[k] == s[i + k]);
    assert(s[i] == suffix[0]);
    assert(i + cl == s.len() || s[i + cl] == suffix[cl]);
    assert forall|k: int| i + 1 <= k < i + 4 implies s[k] != B_SLASH by {
        assert(s[k] == suffix[k - i]);
        assert(suffix[k - i] == cb[k - i]);
    }
    assert(s[i + 4] == suffix[4] && suffix[4] == cb[4] && cb[4] == B_SLASH);
    lemma_scan_to_exact(s, i + 1, i + 4, B_SLASH);
    assert forall|j: int| 0 <= j < 3 implies s.subrange(i + 1, i + 4)[j] == lit_tcp()[j] by {
        assert(s.subrange(i + 1, i + 4)[j] == s[i + 1 + j]);
        assert(s[i + 1 + j] == suffix[1 + j]);
        assert(suffix[1 + j] == cb[1 + j]);
    }
    assert(s.subrange(i + 1, i + 4) =~= lit_tcp());
    assert(lit_tcp() != lit_circuit());
    assert forall|k: int| i + 5 <= k < i + cl implies s[k] != B_SLASH by {
        assert(s[k] == suffix[k - i]);
        assert(suffix[k - i] == cb[k - i]);
        assert(cb[k - i] == dec_bytes(p)[k - i - 5]);
        assert(is_digit(dec_bytes(p)[k - i - 5]));
    }
    lemma_scan_to_exact(s, i + 5, i + cl, B_SLASH);
    assert forall|j: int| 0 <= j < i + cl - (i + 5) implies s.subrange(i + 5, i + cl)[j]
        == dec_bytes(p)[j] by {
        assert(s.subrange(i + 5, i + cl)[j] == s[i + 5 + j]);
        assert(s[i + 5 + j] == suffix[5 + j]);
        assert(suffix[5 + j] == cb[5 + j]);
    }
    assert(s.subrange(i + 5, i + cl) =~= dec_bytes(p));
    lemma_dec_tok_of_dec_bytes(p, 65535);
}

#[verifier::rlimit(100)]
proof fn lemma_parse_step_peer(s: Seq<u8>, i: int, q: Seq<u8>, tail: Seq<u8>)
    requires
        0 <= i <= s.len(),
        valid_id(q),
        s.subrange(i, s.len() as int) == comp_bytes(Comp::Peer(q)) + tail,
        tail.len() == 0 || tail[0] == B_SLASH,
    ensures
        ({
            let cl = comp_bytes(Comp::Peer(q)).len() as int;
            parse_rest(s, i) == (match parse_rest(s, i + cl) {
                Some(t) => Some(seq![Comp::Peer(q)] + t),
                None => None,
            })
        }),
{
    let suffix = s.subrange(i, s.len() as int);
    let cb = comp_bytes(Comp::Peer(q));
    let cl = cb.len() as int;
    assert(suffix == cb + tail);
    assert(suffix.len() == cb.len() + tail.len());
    assert(forall|k: int| 0 <= k < suffix.len() ==> #[trigger] suffix[k] == s[i + k]);
    assert(s[i] == suffix[0]);
    assert(i + cl == s.len() || s[i + cl] == suffix[cl]);
    assert forall|k: int| i + 1 <= k < i + 4 implies s[k] != B_SLASH by {
        assert(s[k] == suffix[k - i]);
        assert(suffix[k - i] == cb[k - i]);
    }
    assert(s[i + 4] == suffix[4] && suffix[4] == cb[4] && cb[4] == B_SLASH);
    lemma_scan_to_exact(s, i + 1, i + 4, B_SLASH);
    assert forall|j: int| 0 <= j < 3 implies s.subrange(i + 1, i + 4)[j] == lit_p2p()[j] by {
        assert(s.subrange(i + 1, i + 4)[j] == s[i + 1 + j]);
        assert(s[i + 1 + j] == suffix[1 + j]);
        assert(suffix[1 + j] == cb[1 + j]);
    }
    assert(s.subrange(i + 1, i + 4) =~= lit_p2p());
    assert(lit_p2p() != lit_circuit());
    assert(lit_p2p() != lit_ip4());
    assert(lit_p2p() != lit_tcp());
    assert forall|k: int| i + 5 <= k < i + cl implies s[k] != B_SLASH by {
        assert(s[k] == suffix[k - i]);
        assert(suffix[k - i] == cb[k - i]);
        assert(cb[k - i] == q[k - i - 5]);
        assert(is_base58_byte(q[k - i - 5]));
    }
    lemma_scan_to_exact(s, i + 5, i + cl, B_SLASH);
    assert forall|j: int| 0 <= j < i + cl - (i + 5) implies s.subrange(i + 5, i + cl)[j] == q[j] by {
        assert(s.subrange(i + 5, i + cl)[j] == s[i + 5 + j]);
        assert(s[i + 5 + j] == suffix[5 + j]);
        assert(suffix[5 + j] == cb[5 + j]);
    }
    assert(s.subrange(i + 5, i + cl) =~= q);
}

#[verifier::rlimit(100)]
proof fn lemma_parse_step_ip4(s: Seq<u8>, i: int, a: int, b: int, c0: int, d: int, tail: Seq<u8>)
    requires
        0 <= i <= s.len(),
        0 <= a < 256 && 0 <= b < 256 && 0 <= c0 < 256 && 0 <= d < 256,
        s.subrange(i, s.len() as int) == comp_bytes(Comp::Ip4(a, b, c0, d)) + tail,
        tail.len() == 0 || tail[0] == B_SLASH,
    ensures
        ({
            let cl = comp_bytes(Comp::Ip4(a, b, c0, d)).len() as int;
            parse_rest(s, i) == (match parse_rest(s, i + cl) {
                Some(t) => Some(seq![Comp::Ip4(a, b, c0, d)] + t),
                None => None,
            })
        }),
{
    let suffix = s.subrange(i, s.len() as int);
    let cb = comp_bytes(Comp::Ip4(a, b, c0, d));
    let cl = cb.len() as int;
    let pay = dec_bytes(a) + seq![B_DOT] + dec_bytes(b) + seq![B_DOT] + dec_bytes(c0) + seq![
        B_DOT,
    ] + dec_bytes(d);
    lemma_dec_bytes_digits(a);
    lemma_dec_bytes_digits(b);
    lemma_dec_bytes_digits(c0);
    lemma_dec_bytes_digits(d);
    assert(suffix == cb + tail);
    assert(suffix.len() == cb.len() + tail.len());
    assert(forall|k: int| 0 <= k < suffix.len() ==> #[trigger] suffix[k] == s[i + k]);
    assert(s[i] == suffix[0]);
    assert(i + cl == s.len() || s[i + cl] == suffix[cl]);
    assert forall|k: int| i + 1 <= k < i + 4 implies s[k] != B_SLASH by {
        assert(s[k] == suffix[k - i]);
        assert(suffix[k - i] == cb[k - i]);
    }
    assert(s[i + 4] == suffix[4] && suffix[4] == cb[4] && cb[4] == B_SLASH);
    lemma_scan_to_exact(s, i + 1, i + 4, B_SLASH);
    assert forall|j: int| 0 <= j < 3 implies s.subrange(i + 1, i + 4)[j] == lit_ip4()[j] by {
        assert(s.subrange(i + 1, i + 4)[j] == s[i + 1 + j]);
        assert(s[i + 1 + j] == suffix[1 + j]);
        assert(suffix[1 + j] == cb[1 + j]);
    }
    assert(s.subrange(i + 1, i + 4) =~= lit_ip4());
    assert(lit_ip4() != lit_circuit());
    assert(cb =~= seq![B_SLASH] + lit_ip4() + seq![B_SLASH] + pay);
    assert forall|k: int| i + 5 <= k < i + cl implies s[k] != B_SLASH by {
        assert(s[k] == suffix[k - i]);
        assert(suffix[k - i] == cb[k - i]);
        assert(cb[k - i] == pay[k - i - 5]);
        assert(is_digit(pay[k - i - 5]) || pay[k - i - 5] == B_DOT);
    }
    lemma_scan_to_exact(s, i + 5, i + cl, B_SLASH);
    assert forall|j: int| 0 <= j < i + cl - (i + 5) implies s.subrange(i + 5, i + cl)[j]
        == pay[j] by {
        assert(s.subrange(i + 5, i + cl)[j] == s[i + 5 + j]);
        assert(s[i + 5 + j] == suffix[5 + j]);
        assert(suffix[5 + j] == cb[5 + j]);
    }
    assert(s.subrange(i + 5, i + cl) =~= pay);
    lemma_ip4_payload(pay, a, b, c0, d);
}

/// Completeness of the grammar: the canonical text of any well-formed
/// component sequence, standing as the suffix of `s` at `i`, is parsed back
/// to exactly that sequence.
pub proof fn lemma_parse_complete(s: Seq<u8>, i: int, cs: Seq<Comp>)
    requires
        0 <= i <= s.len(),
        wf_comps(cs),
        s.subrange(i, s.len() as int) == addr_bytes(cs),
    ensures
        parse_rest(s, i) == Some(cs),
    decreases cs.len(),
{
    let suffix = s.subrange(i, s.len() as int);
    if cs.len() == 0 {
        assert(i == s.len());
    } else {
        let c = cs[0];
        let cb = comp_bytes(c);
        let rest = addr_bytes(cs.skip(1));
        let cl = cb.len() as int;
        assert(forall|j: int| 0 <= j < cs.skip(1).len() ==> wf_comp(#[trigger] cs.skip(1)[j]));
        assert(suffix.len() == cl + rest.len());
        if cs.len() > 1 {
            lemma_addr_bytes_head(cs.skip(1));
        } else {
            assert(cs.skip(1) =~= Seq::<Comp>::empty());
        }
        match c {
            Comp::Circuit => lemma_parse_step_circuit(s, i, rest),
            Comp::Tcp(p) => lemma_parse_step_tcp(s, i, p, rest),
            Comp::Peer(q) => lemma_parse_step_peer(s, i, q, rest),
            Comp::Ip4(a, b, c0, d) => lemma_parse_step_ip4(s, i, a, b, c0, d, rest),
        }
        assert forall|j: int| 0 <= j < rest.len() implies s.subrange(i + cl, s.len() as int)[j]
            == rest[j] by {
            assert(s.subrange(i + cl, s.len() as int)[j] == s[i + cl + j]);
            assert(s[i + cl + j] == suffix[cl + j]);
            assert(suffix[cl + j] == rest[j]);
        }
        assert(s.subrange(i + cl, s.len() as int) =~= rest);
        lemma_parse_complete(s, i + cl, cs.skip(1));
        assert(seq![c] + cs.skip(1) =~= cs);
    }
}

/// Round trip, the rendering direction: the canonical text of any
/// well-formed component sequence parses back to exactly that sequence.
pub proof fn lemma_render_parse_round_trip(cs: Seq<Comp>)
    requires
        wf_comps(cs),
    ensures
        parse_rest(addr_bytes(cs), 0) == Some(cs),
{
    let s = addr_bytes(cs);
    assert(s.subrange(0, s.len() as int) =~= s);
    lemma_parse_complete(s, 0, cs);
}

/// Round trip: a text accepted by the parser is well formed and re-renders
/// to exactly the same text.
pub proof fn lemma_parse_round_trip(s: Seq<u8>)
    requires
        parse_rest(s, 0) is Some,
    ensures
        wf_comps(parse_rest(s, 0)->Some_0),
        addr_bytes(parse_rest(s, 0)->Some_0) == s,
{
    lemma_parse_sound(s, 0);
    assert(s.subrange(0, s.len() as int) =~= s);
}

} // verus!
