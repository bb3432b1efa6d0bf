//! The capability broker: what an application may do, granted, scoped, delegated and revoked.
//!
//! * No ambient authority: an application has no access to anything that was not granted to it.
//! * Grants are per application and per resource, and can be revoked at run time.
//! * A grant may be delegated; the child's scope is bounded by its parent's, and revoking the
//!   parent revokes the child.
use crate::runtime::tokens::{law_tokens_are_distinct, mint, token_of};
use crate::strings::{
    before, chars_of, cut_before, ends, ends_with, eq_ignore_case, find_from, lower_seq,
    lower_string, occurs, same_ignoring_case, search, stands_at, str_eq, string_of, tail,
};
use vstd::prelude::*;
use vstd::string::*;

verus! {

/// Identifies a running application / module instance.
pub type AppId = String;

/// Broker-unique id of a grant; ids are handed out in order, from one.
#[derive(Debug, Clone, Copy, PartialEq, Eq, Hash, Structural)]
pub struct GrantId(pub u64);

/// An opaque capability token handed to a guest module.
///
/// A token resolves to exactly one grant inside one broker. Copying it does not widen its scope.
#[derive(Debug, Clone, Copy, PartialEq, Eq, Hash, Structural)]
pub struct CapabilityToken(pub u128);

/// A host allow-list pattern for `network` capabilities.
#[derive(Debug, Clone, PartialEq, Eq)]
pub enum HostPattern {
    /// Match exactly this host (case-insensitive), e.g. `api.example.com`.
    Exact(String),
    /// Match any host ending with this suffix, e.g. `.example.com` matches `api.example.com` and
    /// `cdn.example.com` but not `example.com.evil.test`. Without a leading dot the suffix is a
    /// domain: it matches itself and every host below it.
    Suffix(String),
    /// Match any host.
    Any,
}

/// The mathematical form of a host pattern.
pub enum HostView {
    Exact(Seq<char>),
    Suffix(Seq<char>),
    Any,
}

impl DeepView for HostPattern {
    type V = HostView;

    open spec fn deep_view(&self) -> HostView {
        match *self {
            HostPattern::Exact(e) => HostView::Exact(e@),
            HostPattern::Suffix(s) => HostView::Suffix(s@),
            HostPattern::Any => HostView::Any,
        }
    }
}

/// Scope of a `storage` capability.
#[derive(Debug, Clone, PartialEq, Eq)]
pub enum StorageScope {
    /// Read/write any key.
    Global,
    /// Read/write only keys under this namespace prefix (e.g. `app:notes:`).
    Namespace(String),
}

/// The mathematical form of a storage scope.
pub enum StorageView {
    Global,
    Namespace(Seq<char>),
}

impl DeepView for StorageScope {
    type V = StorageView;

    open spec fn deep_view(&self) -> StorageView {
        match *self {
            StorageScope::Global => StorageView::Global,
            StorageScope::Namespace(n) => StorageView::Namespace(n@),
        }
    }
}

/// Scope of a `dom` capability.
#[derive(Debug, Clone, Copy, PartialEq, Eq, Structural)]
pub enum DomScope {
    /// Full DOM access (create/modify/append anywhere).
    Full,
    /// Modify only the subtree rooted at this element id.
    Subtree(u64),
}

/// A single capability the broker can grant, scope, revoke, and delegate.
#[derive(Debug, Clone, PartialEq, Eq)]
pub enum Capability {
    /// Network access constrained to a set of host patterns.
    Network { hosts: Vec<HostPattern> },
    /// Key/value storage access scoped to a namespace.
    Storage { scope: StorageScope },
    /// DOM access scoped to a subtree (or full).
    Dom { scope: DomScope },
    /// Media playback bounded by an optional maximum resolution.
    Media { max_resolution: Option<(u32, u32)> },
}

/// The mathematical form of a capability.
pub enum CapView {
    Network { hosts: Seq<HostView> },
    Storage { scope: StorageView },
    Dom { scope: DomScope },
    Media { max_resolution: Option<(u32, u32)> },
}

impl DeepView for Capability {
    type V = CapView;

    open spec fn deep_view(&self) -> CapView {
        match *self {
            Capability::Network { hosts } => CapView::Network { hosts: hosts.deep_view() },
            Capability::Storage { scope } => CapView::Storage { scope: scope.deep_view() },
            Capability::Dom { scope } => CapView::Dom { scope },
            Capability::Media { max_resolution } => CapView::Media { max_resolution },
        }
    }
}

/// Outcome of a capability check or operation.
#[derive(Debug, Clone, PartialEq, Eq)]
pub enum CapabilityError {
    /// The module attempted an operation it was never granted.
    Denied { app: AppId, capability: Capability },
    /// A previously valid grant was revoked or expired; the module must be aborted.
    Revoked { grant: GrantId, reason: String },
    /// The token presented does not resolve to any grant.
    InvalidToken(CapabilityToken),
}

/// The mathematical form of an error.
pub enum ErrorView {
    Denied { app: Seq<char>, capability: CapView },
    Revoked { grant: u64, reason: Seq<char> },
    InvalidToken(u128),
}

impl DeepView for CapabilityError {
    type V = ErrorView;

    open spec fn deep_view(&self) -> ErrorView {
        match *self {
            CapabilityError::Denied { app, capability } => ErrorView::Denied {
                app: app@,
                capability: capability.deep_view(),
            },
            CapabilityError::Revoked { grant, reason } => ErrorView::Revoked {
                grant: grant.0,
                reason: reason@,
            },
            CapabilityError::InvalidToken(t) => ErrorView::InvalidToken(t.0),
        }
    }
}

/// A granted capability tracked by the broker.
#[derive(Debug, Clone)]
pub struct Grant {
    pub id: GrantId,
    pub app: AppId,
    pub capability: Capability,
    pub revoked: bool,
    pub issued_at: u64,
    pub expires_at: Option<u64>,
    /// Set when this grant was produced by delegating `parent`.
    pub parent: Option<GrantId>,
}

/// The mathematical form of a grant.
pub struct GrantView {
    pub app: Seq<char>,
    pub capability: CapView,
    pub revoked: bool,
    pub issued_at: u64,
    pub expires_at: Option<u64>,
    pub parent: Option<u64>,
}

/// The number of a parent grant, where there is one.
pub open spec fn parent_of(p: Option<GrantId>) -> Option<u64> {
    match p {
        Some(id) => Some(id.0),
        None => None,
    }
}

impl DeepView for Grant {
    type V = GrantView;

    open spec fn deep_view(&self) -> GrantView {
        GrantView {
            app: self.app@,
            capability: self.capability.deep_view(),
            revoked: self.revoked,
            issued_at: self.issued_at,
            expires_at: self.expires_at,
            parent: parent_of(self.parent),
        }
    }
}

/// Whether a grant has expired by an instant.
pub open spec fn expired(g: GrantView, now: u64) -> bool {
    g.expires_at matches Some(e) && now >= e
}

impl Grant {
    /// Whether the grant has expired by an instant (seconds since the epoch).
    pub fn is_expired(&self, now: u64) -> (b: bool)
        ensures
            b == expired(self.deep_view(), now),
    {
        match self.expires_at {
            Some(e) => now >= e,
            None => false,
        }
    }
}

/// Whether a host in lower case ends with a suffix in lower case. A suffix with a leading dot is
/// taken as it stands; one without is a domain, in which a host stands if it is that domain or ends
/// with a dot and the domain.
pub open spec fn has_suffix(host: Seq<char>, suffix: Seq<char>) -> bool {
    if suffix.len() > 0 && suffix[0] == '.' {
        ends(host, suffix)
    } else {
        host == suffix || ends(host, seq!['.'] + suffix)
    }
}

/// Whether a pattern matches a host.
pub open spec fn host_matches(p: HostView, host: Seq<char>) -> bool {
    match p {
        HostView::Any => true,
        HostView::Exact(e) => same_ignoring_case(e, host),
        HostView::Suffix(s) => has_suffix(lower_seq(host), lower_seq(s)),
    }
}

/// Whether a host ends with a suffix, both in lower case.
fn ends_in(host: &str, suffix: &str) -> (b: bool)
    ensures
        b == has_suffix(host@, suffix@),
{
    let h = chars_of(host);
    let mut s = chars_of(suffix);
    let n = s.len();
    if n > 0 && s[0] == '.' {
        return ends_with(&h, &s);
    }
    if str_eq(host, suffix) {
        return true;
    }
    let mut dotted: Vec<char> = Vec::new();
    dotted.push('.');
    dotted.append(&mut s);
    assert(dotted@ =~= seq!['.'] + suffix@);
    ends_with(&h, &dotted)
}

impl HostPattern {
    /// Whether the pattern matches a host.
    pub fn matches(&self, host: &str) -> (b: bool)
        ensures
            b == host_matches(self.deep_view(), host@),
    {
        match self {
            HostPattern::Any => true,
            HostPattern::Exact(e) => eq_ignore_case(e, host),
            HostPattern::Suffix(s) => ends_in(&lower_string(host), &lower_string(s)),
        }
    }
}

/// Whether a pattern covers another.
pub open spec fn covers(g: HostView, p: HostView) -> bool {
    match (g, p) {
        (HostView::Any, _) => true,
        (HostView::Exact(a), HostView::Exact(b)) => same_ignoring_case(a, b),
        (HostView::Suffix(_), HostView::Suffix(b)) => host_matches(g, b),
        (HostView::Suffix(_), HostView::Exact(b)) => host_matches(g, b),
        _ => false,
    }
}

/// A pattern `g` covers pattern `p` if every host matched by `p` is also matched by `g`.
fn pattern_covers(g: &HostPattern, p: &HostPattern) -> (b: bool)
    ensures
        b == covers(g.deep_view(), p.deep_view()),
{
    match g {
        HostPattern::Any => true,
        HostPattern::Exact(a) => match p {
            HostPattern::Exact(b) => eq_ignore_case(a, b),
            _ => false,
        },
        HostPattern::Suffix(_) => match p {
            HostPattern::Exact(b) => g.matches(b),
            HostPattern::Suffix(b) => g.matches(b),
            HostPattern::Any => false,
        },
    }
}

proof fn lemma_ends(a: Seq<char>, b: Seq<char>, c: Seq<char>)
    requires
        ends(a, b),
        ends(b, c),
    ensures
        ends(a, c),
{
    assert(a.skip(a.len() - b.len()) == b);
    assert(b.skip(b.len() - c.len()) == c);
    assert forall|i: int| 0 <= i < c.len() implies a.skip(a.len() - c.len())[i] == c[i] by {
        let j = b.len() - c.len() + i;
        assert(b.skip(b.len() - c.len())[i] == b[j]);
        assert(a.skip(a.len() - b.len())[j] == b[j]);
    }
    assert(a.skip(a.len() - c.len()) =~= c);
}

/// What ends with a suffix that itself ends with another ends with that other.
proof fn lemma_suffix_transitive(host: Seq<char>, inner: Seq<char>, outer: Seq<char>)
    requires
        has_suffix(host, inner),
        has_suffix(inner, outer),
    ensures
        has_suffix(host, outer),
{
    let di = seq!['.'] + inner;
    let d = seq!['.'] + outer;
    assert(di.skip(1) =~= inner);
    assert(ends(di, inner));
    if host != inner && inner != outer {
        let mid = if inner.len() > 0 && inner[0] == '.' {
            inner
        } else {
            di
        };
        assert(ends(host, mid));
        let last = if outer.len() > 0 && outer[0] == '.' {
            outer
        } else {
            d
        };
        assert(ends(inner, last));
        if mid == di {
            lemma_ends(di, inner, last);
        }
        lemma_ends(host, mid, last);
    }
}

/// Coverage is exactly inclusion: one pattern covers another if and only if it matches every host
/// that the other matches.
pub proof fn law_coverage_is_inclusion(g: HostView, p: HostView)
    ensures
        covers(g, p) <==> forall|host: Seq<char>|
            host_matches(p, host) ==> #[trigger] host_matches(g, host),
{
    if covers(g, p) {
        assert forall|host: Seq<char>| host_matches(p, host) implies #[trigger] host_matches(
            g,
            host,
        ) by {
            match (g, p) {
                (HostView::Suffix(a), HostView::Suffix(b)) => {
                    lemma_suffix_transitive(lower_seq(host), lower_seq(b), lower_seq(a));
                },
                _ => {},
            }
        }
    }
    if forall|host: Seq<char>| host_matches(p, host) ==> #[trigger] host_matches(g, host) {
        match p {
            HostView::Exact(b) => {
                assert(host_matches(p, b));
                assert(host_matches(g, b));
            },
            HostView::Suffix(b) => {
                let t = lower_seq(b);
                assert(t.skip(0) =~= t);
                assert(host_matches(p, b));
                assert(host_matches(g, b));
                let h = seq!['x', '.'] + b;
                assert(lower_seq(h) =~= seq!['x', '.'] + t);
                assert(lower_seq(h).skip(1) =~= seq!['.'] + t);
                assert(lower_seq(h).skip(2) =~= t);
                assert(host_matches(p, h));
                assert(host_matches(g, h));
                assert(lower_seq(h).len() == t.len() + 2);
            },
            HostView::Any => {
                match g {
                    HostView::Any => {},
                    HostView::Exact(a) => {
                        let h = a.push('x');
                        assert(host_matches(p, h));
                        assert(host_matches(g, h));
                        assert(lower_seq(h).len() != lower_seq(a).len());
                    },
                    HostView::Suffix(a) => {
                        let t = lower_seq(a);
                        let c = if t.len() > 0 && t.last() == 'x' {
                            'y'
                        } else {
                            'x'
                        };
                        let h = seq![c];
                        assert(lower_seq(h) =~= h);
                        assert(host_matches(p, h));
                        assert(host_matches(g, h));
                        if h == t {
                            assert(t.last() == c);
                        } else {
                            let d = if t.len() > 0 && t[0] == '.' {
                                t
                            } else {
                                seq!['.'] + t
                            };
                            assert(ends(h, d));
                            assert(h.skip(h.len() - d.len()) == d);
                            assert(d.len() == 1);
                            assert(h.skip(0) =~= h);
                            assert(d[0] == '.');
                        }
                    },
                }
            },
        }
    }
}

/// Whether a storage scope covers another.
pub open spec fn storage_covers(g: StorageView, r: StorageView) -> bool {
    match (g, r) {
        (StorageView::Global, _) => true,
        (StorageView::Namespace(a), StorageView::Namespace(b)) => occurs(b, a, 0),
        _ => false,
    }
}

/// Whether a DOM scope covers another.
pub open spec fn dom_covers(g: DomScope, r: DomScope) -> bool {
    g == DomScope::Full || g == r
}

/// Whether every pattern of a list is covered by some pattern of another.
pub open spec fn hosts_cover(g: Seq<HostView>, r: Seq<HostView>) -> bool {
    forall|i: int| 0 <= i < r.len() ==> #[trigger] host_covered(g, r[i])
}

/// Whether a pattern is covered by some pattern of a list.
pub open spec fn host_covered(g: Seq<HostView>, p: HostView) -> bool {
    exists|j: int| 0 <= j < g.len() && covers(#[trigger] g[j], p)
}

/// Whether a media bound covers another.
pub open spec fn media_covers(g: Option<(u32, u32)>, r: Option<(u32, u32)>) -> bool {
    match (g, r) {
        (Some(a), Some(b)) => b.0 <= a.0 && b.1 <= a.1,
        _ => true,
    }
}

/// Whether a granted capability covers a requested one.
pub open spec fn grants(g: CapView, r: CapView) -> bool {
    match (g, r) {
        (CapView::Network { hosts: a }, CapView::Network { hosts: b }) => hosts_cover(a, b),
        (CapView::Storage { scope: a }, CapView::Storage { scope: b }) => storage_covers(a, b),
        (CapView::Dom { scope: a }, CapView::Dom { scope: b }) => dom_covers(a, b),
        (CapView::Media { max_resolution: a }, CapView::Media { max_resolution: b }) => media_covers(
            a,
            b,
        ),
        _ => false,
    }
}

fn storage_contains(g: &StorageScope, r: &StorageScope) -> (b: bool)
    ensures
        b == storage_covers(g.deep_view(), r.deep_view()),
{
    match g {
        StorageScope::Global => true,
        StorageScope::Namespace(a) => match r {
            StorageScope::Namespace(b) => stands_at(&chars_of(b), &chars_of(a), 0),
            StorageScope::Global => false,
        },
    }
}

fn dom_contains(g: &DomScope, r: &DomScope) -> (b: bool)
    ensures
        b == dom_covers(*g, *r),
{
    match g {
        DomScope::Full => true,
        DomScope::Subtree(a) => match r {
            DomScope::Subtree(b) => *a == *b,
            DomScope::Full => false,
        },
    }
}

fn is_host_covered(g: &Vec<HostPattern>, p: &HostPattern) -> (b: bool)
    ensures
        b == host_covered(g.deep_view(), p.deep_view()),
{
    let ghost gv = g.deep_view();
    let mut j: usize = 0;
    while j < g.len()
        invariant
            0 <= j <= g@.len(),
            gv == g.deep_view(),
            forall|k: int| 0 <= k < j ==> !covers(#[trigger] gv[k], p.deep_view()),
        decreases g@.len() - j,
    {
        assert(gv[j as int] == g@[j as int].deep_view());
        if pattern_covers(&g[j], p) {
            assert(covers(gv[j as int], p.deep_view()));
            return true;
        }
        j = j + 1;
    }
    false
}

fn hosts_contain(g: &Vec<HostPattern>, r: &Vec<HostPattern>) -> (b: bool)
    ensures
        b == hosts_cover(g.deep_view(), r.deep_view()),
{
    let ghost rv = r.deep_view();
    let mut i: usize = 0;
    while i < r.len()
        invariant
            0 <= i <= r@.len(),
            rv == r.deep_view(),
            forall|k: int| 0 <= k < i ==> #[trigger] host_covered(g.deep_view(), rv[k]),
        decreases r@.len() - i,
    {
        assert(rv[i as int] == r@[i as int].deep_view());
        if !is_host_covered(g, &r[i]) {
            assert(!host_covered(g.deep_view(), rv[i as int]));
            return false;
        }
        i = i + 1;
    }
    true
}

/// Does `grant` (the authorized capability) cover `requested` (the operation)?
fn contains(grant: &Capability, requested: &Capability) -> (b: bool)
    ensures
        b == grants(grant.deep_view(), requested.deep_view()),
{
    match grant {
        Capability::Network { hosts: g } => match requested {
            Capability::Network { hosts: r } => hosts_contain(g, r),
            _ => false,
        },
        Capability::Storage { scope: g } => match requested {
            Capability::Storage { scope: r } => storage_contains(g, r),
            _ => false,
        },
        Capability::Dom { scope: g } => match requested {
            Capability::Dom { scope: r } => dom_contains(g, r),
            _ => false,
        },
        Capability::Media { max_resolution: g } => match requested {
            Capability::Media { max_resolution: r } => match (g, r) {
                (Some(a), Some(b)) => b.0 <= a.0 && b.1 <= a.1,
                _ => true,
            },
            _ => false,
        },
    }
}

/// A network capability that covers another allows every host that the other allows.
pub proof fn law_covered_hosts_are_allowed(g: Seq<HostView>, r: Seq<HostView>, host: Seq<char>)
    requires
        hosts_cover(g, r),
        exists|i: int| 0 <= i < r.len() && host_matches(#[trigger] r[i], host),
    ensures
        exists|j: int| 0 <= j < g.len() && host_matches(#[trigger] g[j], host),
{
    let i = choose|i: int| 0 <= i < r.len() && host_matches(#[trigger] r[i], host);
    assert(host_covered(g, r[i]));
    let j = choose|j: int| 0 <= j < g.len() && covers(#[trigger] g[j], r[i]);
    law_coverage_is_inclusion(g[j], r[i]);
    assert(host_matches(g[j], host));
}

/// The hosts of a list that a parent's hosts cover, in order.
pub open spec fn covered_hosts(parent: Seq<HostView>, child: Seq<HostView>) -> Seq<HostView>
    decreases child.len(),
{
    if child.len() == 0 {
        Seq::empty()
    } else if host_covered(parent, child.last()) {
        covered_hosts(parent, child.drop_last()).push(child.last())
    } else {
        covered_hosts(parent, child.drop_last())
    }
}

/// The smaller of two numbers.
pub open spec fn least(a: u32, b: u32) -> u32 {
    if a <= b {
        a
    } else {
        b
    }
}

/// What a child may be given of what it asks for, where anything.
pub open spec fn narrowed(parent: CapView, child: CapView) -> Option<CapView> {
    match (parent, child) {
        (CapView::Network { hosts: p }, CapView::Network { hosts: c }) => {
            let hosts = covered_hosts(p, c);
            if hosts.len() > 0 {
                Some(CapView::Network { hosts })
            } else {
                None
            }
        },
        (CapView::Storage { scope: p }, CapView::Storage { scope: c }) => if storage_covers(p, c) {
            Some(child)
        } else {
            None
        },
        (CapView::Dom { scope: p }, CapView::Dom { scope: c }) => if dom_covers(p, c) {
            Some(child)
        } else {
            None
        },
        (CapView::Media { max_resolution: p }, CapView::Media { max_resolution: c }) => Some(
            CapView::Media {
                max_resolution: match (p, c) {
                    (Some(a), Some(b)) => Some((least(a.0, b.0), least(a.1, b.1))),
                    (Some(a), None) => Some(a),
                    (None, b) => b,
                },
            },
        ),
        _ => None,
    }
}

/// A copy of a host pattern.
fn copy_host(p: &HostPattern) -> (r: HostPattern)
    ensures
        r.deep_view() == p.deep_view(),
{
    match p {
        HostPattern::Exact(e) => HostPattern::Exact(e.clone()),
        HostPattern::Suffix(s) => HostPattern::Suffix(s.clone()),
        HostPattern::Any => HostPattern::Any,
    }
}

/// A copy of a capability.
pub fn copy_capability(c: &Capability) -> (r: Capability)
    ensures
        r.deep_view() == c.deep_view(),
{
    match c {
        Capability::Network { hosts } => {
            let ghost hv = hosts.deep_view();
            let mut out: Vec<HostPattern> = Vec::new();
            let mut i: usize = 0;
            while i < hosts.len()
                invariant
                    0 <= i <= hosts@.len(),
                    hv == hosts.deep_view(),
                    out.deep_view() == hv.take(i as int),
                decreases hosts@.len() - i,
            {
                let ghost was = out.deep_view();
                let p = copy_host(&hosts[i]);
                out.push(p);
                assert(out.deep_view() =~= was.push(p.deep_view()));
                assert(hv.take(i + 1) =~= hv.take(i as int).push(hv[i as int]));
                i = i + 1;
            }
            assert(hv.take(hv.len() as int) =~= hv);
            Capability::Network { hosts: out }
        },
        Capability::Storage { scope } => Capability::Storage {
            scope: match scope {
                StorageScope::Global => StorageScope::Global,
                StorageScope::Namespace(n) => StorageScope::Namespace(n.clone()),
            },
        },
        Capability::Dom { scope } => Capability::Dom { scope: *scope },
        Capability::Media { max_resolution } => Capability::Media {
            max_resolution: *max_resolution,
        },
    }
}

/// Intersect two capabilities for delegation: the child may be no wider than the parent.
fn intersect(parent: &Capability, child: &Capability) -> (r: Option<Capability>)
    ensures
        r.deep_view() == narrowed(parent.deep_view(), child.deep_view()),
{
    match parent {
        Capability::Network { hosts: p } => match child {
            Capability::Network { hosts: c } => {
                let ghost cv = c.deep_view();
                let mut hosts: Vec<HostPattern> = Vec::new();
                let mut i: usize = 0;
                assert(cv.take(0) =~= Seq::<HostView>::empty());
                assert(hosts.deep_view() =~= covered_hosts(p.deep_view(), cv.take(0)));
                while i < c.len()
                    invariant
                        0 <= i <= c@.len(),
                        cv == c.deep_view(),
                        hosts.deep_view() == covered_hosts(p.deep_view(), cv.take(i as int)),
                    decreases c@.len() - i,
                {
                    assert(cv.take(i + 1).drop_last() =~= cv.take(i as int));
                    assert(cv.take(i + 1).last() == c@[i as int].deep_view());
                    let ghost was = hosts.deep_view();
                    if is_host_covered(p, &c[i]) {
                        let h = copy_host(&c[i]);
                        hosts.push(h);
                        assert(hosts.deep_view() =~= was.push(h.deep_view()));
                    }
                    i = i + 1;
                }
                assert(cv.take(cv.len() as int) =~= cv);
                if hosts.len() > 0 {
                    Some(Capability::Network { hosts })
                } else {
                    None
                }
            },
            _ => None,
        },
        Capability::Storage { scope: p } => match child {
            Capability::Storage { scope: c } => if storage_contains(p, c) {
                Some(copy_capability(child))
            } else {
                None
            },
            _ => None,
        },
        Capability::Dom { scope: p } => match child {
            Capability::Dom { scope: c } => if dom_contains(p, c) {
                Some(copy_capability(child))
            } else {
                None
            },
            _ => None,
        },
        Capability::Media { max_resolution: p } => match child {
            Capability::Media { max_resolution: c } => {
                let max_resolution = match (p, c) {
                    (Some(a), Some(b)) => Some(
                        (
                            if a.0 <= b.0 {
                                a.0
                            } else {
                                b.0
                            },
                            if a.1 <= b.1 {
                                a.1
                            } else {
                                b.1
                            },
                        ),
                    ),
                    (Some(a), None) => Some(*a),
                    (None, b) => *b,
                };
                Some(Capability::Media { max_resolution })
            },
            _ => None,
        },
    }
}

proof fn lemma_covered_hosts(parent: Seq<HostView>, child: Seq<HostView>)
    ensures
        hosts_cover(parent, covered_hosts(parent, child)),
        hosts_cover(child, covered_hosts(parent, child)),
    decreases child.len(),
{
    if child.len() > 0 {
        let front = child.drop_last();
        lemma_covered_hosts(parent, front);
        let r = covered_hosts(parent, child);
        let r0 = covered_hosts(parent, front);
        assert forall|i: int| 0 <= i < r.len() implies #[trigger] host_covered(parent, r[i]) by {
            if i < r0.len() {
                assert(r[i] == r0[i]);
                assert(host_covered(parent, r0[i]));
            } else {
                assert(r[i] == child.last());
            }
        }
        assert forall|i: int| 0 <= i < r.len() implies #[trigger] host_covered(child, r[i]) by {
            if i < r0.len() {
                assert(r[i] == r0[i]);
                assert(host_covered(front, r0[i]));
                let j = choose|j: int| 0 <= j < front.len() && covers(#[trigger] front[j], r0[i]);
                assert(covers(child[j], r[i]));
            } else {
                let c = child[child.len() - 1];
                law_coverage_is_inclusion(c, c);
                assert(covers(c, r[i]));
            }
        }
    }
}

/// Coverage of host lists carries over.
proof fn lemma_hosts_cover(a: Seq<HostView>, b: Seq<HostView>, c: Seq<HostView>)
    requires
        hosts_cover(a, b),
        hosts_cover(b, c),
    ensures
        hosts_cover(a, c),
{
    assert forall|i: int| 0 <= i < c.len() implies #[trigger] host_covered(a, c[i]) by {
        assert(host_covered(b, c[i]));
        let j = choose|j: int| 0 <= j < b.len() && covers(#[trigger] b[j], c[i]);
        assert(host_covered(a, b[j]));
        let k = choose|k: int| 0 <= k < a.len() && covers(#[trigger] a[k], b[j]);
        law_coverage_is_inclusion(a[k], b[j]);
        law_coverage_is_inclusion(b[j], c[i]);
        law_coverage_is_inclusion(a[k], c[i]);
        assert(covers(a[k], c[i]));
    }
}

/// A delegated capability is covered by the parent's and by the one that was asked for, and so is
/// every request that it covers.
pub proof fn law_delegation_narrows(parent: CapView, child: CapView, requested: CapView)
    requires
        narrowed(parent, child) is Some,
    ensures
        grants(parent, narrowed(parent, child)->0),
        grants(child, narrowed(parent, child)->0),
        grants(narrowed(parent, child)->0, requested) ==> grants(parent, requested) && grants(
            child,
            requested,
        ),
{
    let scoped = narrowed(parent, child)->0;
    match (parent, child) {
        (CapView::Network { hosts: p }, CapView::Network { hosts: c }) => {
            lemma_covered_hosts(p, c);
            if let CapView::Network { hosts: r } = requested {
                if grants(scoped, requested) {
                    lemma_hosts_cover(p, covered_hosts(p, c), r);
                    lemma_hosts_cover(c, covered_hosts(p, c), r);
                }
            }
        },
        (CapView::Storage { scope: p }, CapView::Storage { scope: c }) => {
            if let StorageView::Namespace(n) = c {
                assert(n.subrange(0, n.len() as int) =~= n);
                if let (StorageView::Namespace(m), CapView::Storage { scope: StorageView::Namespace(r) })
                    = (p, requested) {
                    if grants(scoped, requested) {
                        assert(r.subrange(0, m.len() as int) =~= r.subrange(
                            0,
                            n.len() as int,
                        ).subrange(0, m.len() as int));
                    }
                }
            }
        },
        _ => {},
    }
}

/// Decision returned by a [`GrantPrompter`] for a capability request.
#[derive(Debug, Clone, PartialEq, Eq)]
pub enum GrantDecision {
    /// Grant exactly what was requested.
    Allow,
    /// Deny the request entirely.
    Deny,
    /// Grant a narrowed version of the request (user modified scope).
    Modify(Capability),
}

/// The mathematical form of a decision.
pub enum DecisionView {
    Allow,
    Deny,
    Modify(CapView),
}

impl DeepView for GrantDecision {
    type V = DecisionView;

    open spec fn deep_view(&self) -> DecisionView {
        match *self {
            GrantDecision::Allow => DecisionView::Allow,
            GrantDecision::Deny => DecisionView::Deny,
            GrantDecision::Modify(c) => DecisionView::Modify(c.deep_view()),
        }
    }
}

/// User-facing prompt flow: an app declares a capability, the runtime asks the user, who
/// approves / denies / modifies.
pub trait GrantPrompter {
    /// What the user decides.
    fn request(&self, app: &AppId, requested: &Capability) -> GrantDecision;
}

/// Automatically allows every request (used in tests and fully-trusted hosts).
pub struct AllowAllPrompter;

impl GrantPrompter for AllowAllPrompter {
    fn request(&self, app: &AppId, requested: &Capability) -> (d: GrantDecision)
        ensures
            d is Allow,
    {
        GrantDecision::Allow
    }
}

/// Automatically denies every request.
pub struct DenyAllPrompter;

impl GrantPrompter for DenyAllPrompter {
    fn request(&self, app: &AppId, requested: &Capability) -> (d: GrantDecision)
        ensures
            d is Deny,
    {
        GrantDecision::Deny
    }
}

/// The mathematical form of a broker: its secret, and every grant in the order of issue. The
/// grant numbered `n` stands at `n - 1`.
pub struct BrokerView {
    pub secret: u64,
    pub grants: Seq<GrantView>,
}

/// The grant that a token belongs to, where there is one.
#[verifier::opaque]
pub open spec fn holder(b: BrokerView, token: u128) -> Option<u64> {
    if exists|id: u64| held(b, token, id) {
        Some(choose|id: u64| held(b, token, id))
    } else {
        None
    }
}

/// Whether a token is that of a numbered grant.
pub open spec fn held(b: BrokerView, token: u128, id: u64) -> bool {
    1 <= id <= b.grants.len() && token_of(b.secret, id) == token
}

/// The numbered grant.
pub open spec fn numbered(b: BrokerView, id: u64) -> GrantView {
    b.grants[id - 1]
}

/// A token has one holder at most.
proof fn lemma_holder(b: BrokerView, token: u128, id: u64)
    requires
        held(b, token, id),
    ensures
        holder(b, token) == Some(id),
{
    reveal(holder);
    let other = choose|id: u64| held(b, token, id);
    assert(held(b, token, other));
    law_tokens_are_distinct(b.secret, id, other);
}

/// What every broker keeps: a delegated grant comes after its parent, and is revoked with it.
pub open spec fn consistent(gs: Seq<GrantView>) -> bool {
    &&& gs.len() < u64::MAX
    &&& forall|i: int|
        0 <= i < gs.len() ==> ((#[trigger] gs[i]).parent matches Some(p) ==> 1 <= p <= i && (
        gs[p - 1].revoked ==> gs[i].revoked))
}

/// A grant as it is issued.
pub open spec fn issued(
    app: Seq<char>,
    capability: CapView,
    parent: Option<u64>,
    expires_at: Option<u64>,
    now: u64,
) -> GrantView {
    GrantView { app, capability, revoked: false, issued_at: now, expires_at, parent }
}

/// A broker after one more grant.
pub open spec fn with_grant(b: BrokerView, g: GrantView) -> BrokerView {
    BrokerView { secret: b.secret, grants: b.grants.push(g) }
}

/// The token of the next grant.
pub open spec fn next_token(b: BrokerView) -> u128 {
    token_of(b.secret, (b.grants.len() + 1) as u64)
}

/// Whether a grant is another, or was delegated from it, directly or through others.
pub open spec fn descends(gs: Seq<GrantView>, root: u64, i: int) -> bool
    decreases i,
{
    ||| i + 1 == root
    ||| (gs[i].parent matches Some(p) && 1 <= p <= i && descends(gs, root, p - 1))
}

/// A grant after a revocation.
pub open spec fn marked(g: GrantView, gone: bool) -> GrantView {
    GrantView { revoked: g.revoked || gone, ..g }
}

/// The grants after a grant and everything delegated from it are revoked.
pub open spec fn revoked_from(gs: Seq<GrantView>, root: u64) -> Seq<GrantView> {
    Seq::new(gs.len(), |i: int| marked(gs[i], descends(gs, root, i)))
}

/// Whether a revocation has anything to revoke.
pub open spec fn revocable(gs: Seq<GrantView>, root: u64) -> bool {
    exists|i: int| 0 <= i < gs.len() && !gs[i].revoked && #[trigger] descends(gs, root, i)
}

/// The grants after the first `k` of them, as far as they are an app's, are revoked one by one,
/// and how many revocations found something to revoke.
pub open spec fn revoked_of(gs: Seq<GrantView>, app: Seq<char>, k: nat) -> (Seq<GrantView>, nat)
    decreases k,
{
    if k == 0 {
        (gs, 0)
    } else {
        let (before, n) = revoked_of(gs, app, (k - 1) as nat);
        if gs[k - 1].app == app {
            (
                revoked_from(before, k as u64),
                if revocable(before, k as u64) {
                    n + 1
                } else {
                    n
                },
            )
        } else {
            (before, n)
        }
    }
}

/// Whether a grant is an app's and neither revoked nor expired.
pub open spec fn live(g: GrantView, app: Seq<char>, now: u64) -> bool {
    g.app == app && !g.revoked && !expired(g, now)
}

/// An app's live grants, in the order of issue.
pub open spec fn live_grants(gs: Seq<GrantView>, app: Seq<char>, now: u64) -> Seq<GrantView>
    decreases gs.len(),
{
    if gs.len() == 0 {
        Seq::empty()
    } else if live(gs.last(), app, now) {
        live_grants(gs.drop_last(), app, now).push(gs.last())
    } else {
        live_grants(gs.drop_last(), app, now)
    }
}

/// The numbers of an app's live grants, in the order of issue.
pub open spec fn live_ids(gs: Seq<GrantView>, app: Seq<char>, now: u64) -> Seq<u64>
    decreases gs.len(),
{
    if gs.len() == 0 {
        Seq::empty()
    } else if live(gs.last(), app, now) {
        live_ids(gs.drop_last(), app, now).push(gs.len() as u64)
    } else {
        live_ids(gs.drop_last(), app, now)
    }
}

/// Whether grants are an app's live ones, each once and with its number.
pub open spec fn lists(r: Seq<&Grant>, gs: Seq<GrantView>, app: Seq<char>, now: u64) -> bool {
    &&& r.len() == live_grants(gs, app, now).len()
    &&& r.len() == live_ids(gs, app, now).len()
    &&& forall|i: int|
        0 <= i < r.len() ==> (#[trigger] r[i]).deep_view() == live_grants(gs, app, now)[i]
            && r[i].id.0 == live_ids(gs, app, now)[i]
}

/// Whether a live grant of an app covers a capability.
pub open spec fn authorized(gs: Seq<GrantView>, app: Seq<char>, requested: CapView, now: u64) -> bool {
    exists|i: int|
        0 <= i < gs.len() && live(#[trigger] gs[i], app, now) && grants(
            gs[i].capability,
            requested,
        )
}

/// What a token resolves to at an instant: its grant, if that is neither revoked nor expired.
pub open spec fn resolved(b: BrokerView, token: u128, now: u64) -> Option<u64> {
    match holder(b, token) {
        Some(id) if !numbered(b, id).revoked && !expired(numbered(b, id), now) => Some(id),
        _ => None,
    }
}

/// What a check returns.
pub open spec fn check_outcome(b: BrokerView, token: u128, requested: CapView, now: u64) -> Result<
    u64,
    ErrorView,
> {
    match holder(b, token) {
        None => Err(ErrorView::InvalidToken(token)),
        Some(id) => {
            let g = numbered(b, id);
            if g.revoked {
                Err(ErrorView::Revoked { grant: id, reason: "grant revoked"@ })
            } else if expired(g, now) {
                Err(ErrorView::Revoked { grant: id, reason: "grant expired"@ })
            } else if grants(g.capability, requested) {
                Ok(id)
            } else {
                Err(ErrorView::Denied { app: g.app, capability: requested })
            }
        },
    }
}

/// What a delegation returns: the grant it issues, or an error.
pub open spec fn delegation(
    b: BrokerView,
    parent: u128,
    to_app: Seq<char>,
    child: CapView,
    now: u64,
) -> Result<GrantView, ErrorView> {
    match holder(b, parent) {
        None => Err(ErrorView::InvalidToken(parent)),
        Some(id) => {
            let g = numbered(b, id);
            if g.revoked {
                Err(ErrorView::Revoked { grant: id, reason: "parent grant revoked"@ })
            } else {
                match narrowed(g.capability, child) {
                    None => Err(ErrorView::Denied { app: to_app, capability: child }),
                    Some(scoped) => Ok(issued(to_app, scoped, Some(id), None, now)),
                }
            }
        },
    }
}

/// What a request returns once the user has decided: the grant it issues, or an error.
pub open spec fn request_outcome(
    app: Seq<char>,
    requested: CapView,
    decision: DecisionView,
    now: u64,
) -> Result<GrantView, ErrorView> {
    match decision {
        DecisionView::Deny => Err(ErrorView::Denied { app, capability: requested }),
        DecisionView::Allow => Ok(issued(app, requested, None, None, now)),
        DecisionView::Modify(c) => Ok(issued(app, c, None, None, now)),
    }
}

/// Whether a broker came from another by issuing a grant, or by an error that left it as it was.
pub open spec fn settled(
    was: BrokerView,
    now_is: BrokerView,
    outcome: Result<GrantView, ErrorView>,
    r: Result<CapabilityToken, CapabilityError>,
) -> bool {
    match (outcome, r) {
        (Ok(g), Ok(t)) => now_is == with_grant(was, g) && t.0 == next_token(was),
        (Err(e), Err(x)) => now_is == was && x.deep_view() == e,
        _ => false,
    }
}

/// The Capability Broker: grant registry + scoping + revocation + delegation.
#[derive(Debug)]
pub struct CapabilityBroker {
    secret: u64,
    grants: Vec<Grant>,
    tokens: Vec<CapabilityToken>,
}

impl View for CapabilityBroker {
    type V = BrokerView;

    closed spec fn view(&self) -> BrokerView {
        BrokerView { secret: self.secret, grants: self.grants.deep_view() }
    }
}

/// Seconds since the Unix epoch: `SystemTime::now` less `UNIX_EPOCH`, or zero on a clock set
/// before it. Nothing is claimed of the value: it is the time.
#[verifier::external_body]
fn now_secs() -> u64 {
    std::time::SystemTime::now().duration_since(std::time::UNIX_EPOCH).map(
        |d| d.as_secs(),
    ).unwrap_or(0)
}

/// Whether the clock can read an instant.
pub closed spec fn clock_reads(now: u64) -> bool {
    call_ensures(now_secs, (), now)
}

/// The instant that the clock reads, in seconds since the Unix epoch.
pub(crate) fn clock() -> (now: u64)
    ensures
        clock_reads(now),
{
    let now = now_secs();
    assert(clock_reads(now));
    now
}

/// A seed drawn from the keys that the process gives each `std::collections::hash_map::RandomState`.
/// Nothing is claimed of the value: it rests on chance.
#[verifier::external_body]
fn fresh_seed() -> u64 {
    std::hash::BuildHasher::hash_one(&std::collections::hash_map::RandomState::new(), 0u64)
}

/// Whether chance can give a seed.
pub closed spec fn seed_drawn(seed: u64) -> bool {
    call_ensures(fresh_seed, (), seed)
}

impl Default for CapabilityBroker {
    fn default() -> (b: Self)
        ensures
            b.wf(),
            b@.grants == Seq::<GrantView>::empty(),
            exists|seed: u64| #[trigger] seed_drawn(seed) && b@.secret == seed | 1,
    {
        let seed = fresh_seed();
        assert(seed_drawn(seed));
        CapabilityBroker::with_seed(seed)
    }
}

impl CapabilityBroker {
    /// What every broker keeps.
    pub closed spec fn wf(&self) -> bool {
        &&& consistent(self@.grants)
        &&& self.tokens@.len() == self.grants@.len()
        &&& forall|i: int|
            0 <= i < self.grants@.len() ==> (#[trigger] self.grants@[i]).id.0 == i + 1
        &&& forall|i: int|
            0 <= i < self.tokens@.len() ==> (#[trigger] self.tokens@[i]).0 == token_of(
                self.secret,
                (i + 1) as u64,
            )
    }

    /// Every broker is consistent: a delegated grant comes after its parent, and a grant whose
    /// parent is revoked is revoked too.
    pub proof fn law_consistent(&self)
        requires
            self.wf(),
        ensures
            consistent(self@.grants),
    {
    }

    /// A broker with an unpredictable secret and no grants.
    pub fn new() -> (b: Self)
        ensures
            b.wf(),
            b@.grants == Seq::<GrantView>::empty(),
            exists|seed: u64| #[trigger] seed_drawn(seed) && b@.secret == seed | 1,
    {
        Self::default()
    }

    /// A broker with a given secret and no grants.
    pub fn with_seed(seed: u64) -> (b: Self)
        ensures
            b.wf(),
            b@ == (BrokerView { secret: seed | 1, grants: Seq::empty() }),
    {
        let b = CapabilityBroker { secret: seed | 1, grants: Vec::new(), tokens: Vec::new() };
        assert(b@.grants =~= Seq::<GrantView>::empty());
        b
    }

    fn mint_token(&self, grant_id: GrantId) -> (t: CapabilityToken)
        ensures
            t.0 == token_of(self@.secret, grant_id.0),
    {
        CapabilityToken(mint(self.secret, grant_id.0))
    }

    fn issue(
        &mut self,
        app: AppId,
        capability: Capability,
        parent: Option<GrantId>,
        expires_at: Option<u64>,
        now: u64,
    ) -> (r: (GrantId, CapabilityToken))
        requires
            old(self).wf(),
            old(self)@.grants.len() + 1 < u64::MAX,
            parent matches Some(p) ==> 1 <= p.0 <= old(self)@.grants.len() && !old(
                self,
            )@.grants[p.0 - 1].revoked,
        ensures
            final(self).wf(),
            final(self)@ == with_grant(
                old(self)@,
                issued(app@, capability.deep_view(), parent_of(parent), expires_at, now),
            ),
            r.0.0 == old(self)@.grants.len() + 1,
            r.1.0 == next_token(old(self)@),
    {
        let ghost was = self@;
        let n = self.grants.len();
        let id = GrantId(n as u64 + 1);
        let grant = Grant { id, app, capability, revoked: false, issued_at: now, expires_at, parent };
        let token = self.mint_token(id);
        let ghost g = grant.deep_view();
        self.grants.push(grant);
        self.tokens.push(token);
        assert(self@.grants =~= was.grants.push(g));
        (id, token)
    }

    /// Record a grant for `app` at an instant, with or without an expiration, and return the
    /// unforgeable token the app must present on each call.
    pub fn grant_at(
        &mut self,
        app: AppId,
        capability: Capability,
        expires_at: Option<u64>,
        now: u64,
    ) -> (t: CapabilityToken)
        requires
            old(self).wf(),
            old(self)@.grants.len() + 1 < u64::MAX,
        ensures
            final(self).wf(),
            final(self)@ == with_grant(
                old(self)@,
                issued(app@, capability.deep_view(), None, expires_at, now),
            ),
            t.0 == next_token(old(self)@),
    {
        self.issue(app, capability, None, expires_at, now).1
    }

    /// Record a grant for `app` (e.g. from a previously-resolved prompt) and return the
    /// unforgeable token the app must present on each call.
    pub fn grant(&mut self, app: AppId, capability: Capability) -> (t: CapabilityToken)
        requires
            old(self).wf(),
            old(self)@.grants.len() + 1 < u64::MAX,
        ensures
            final(self).wf(),
            exists|now: u64|
                clock_reads(now) && final(self)@ == with_grant(
                    old(self)@,
                    #[trigger] issued(app@, capability.deep_view(), None, None, now),
                ),
            t.0 == next_token(old(self)@),
    {
        let now = clock();
        self.grant_at(app, capability, None, now)
    }

    /// Grant with an explicit expiration (seconds since epoch).
    pub fn grant_until(&mut self, app: AppId, capability: Capability, expires_at: u64) -> (t:
        CapabilityToken)
        requires
            old(self).wf(),
            old(self)@.grants.len() + 1 < u64::MAX,
        ensures
            final(self).wf(),
            exists|now: u64|
                clock_reads(now) && final(self)@ == with_grant(
                    old(self)@,
                    #[trigger] issued(app@, capability.deep_view(), None, Some(expires_at), now),
                ),
            t.0 == next_token(old(self)@),
    {
        let now = clock();
        self.grant_at(app, capability, Some(expires_at), now)
    }

    /// Applies a decision on a request: a token on allow/modify, or `Denied` on deny.
    pub fn decide_at(
        &mut self,
        app: &AppId,
        requested: Capability,
        decision: GrantDecision,
        now: u64,
    ) -> (r: Result<CapabilityToken, CapabilityError>)
        requires
            old(self).wf(),
            old(self)@.grants.len() + 1 < u64::MAX,
        ensures
            final(self).wf(),
            settled(
                old(self)@,
                final(self)@,
                request_outcome(app@, requested.deep_view(), decision.deep_view(), now),
                r,
            ),
    {
        match decision {
            GrantDecision::Deny => Err(
                CapabilityError::Denied { app: app.clone(), capability: requested },
            ),
            GrantDecision::Allow => Ok(self.grant_at(app.clone(), requested, None, now)),
            GrantDecision::Modify(narrowed) => Ok(self.grant_at(app.clone(), narrowed, None, now)),
        }
    }

    /// Declare → request → approve flow. Consults `prompter`, applies the decision, and returns a
    /// token on allow/modify or `Denied` on deny.
    pub fn request_capability<P: GrantPrompter>(
        &mut self,
        app: &AppId,
        requested: Capability,
        prompter: &P,
    ) -> (r: Result<CapabilityToken, CapabilityError>)
        requires
            old(self).wf(),
            old(self)@.grants.len() + 1 < u64::MAX,
        ensures
            final(self).wf(),
            exists|decision: GrantDecision, now: u64|
                clock_reads(now) && call_ensures(
                    P::request,
                    (prompter, app, &requested),
                    decision,
                ) && settled(
                    old(self)@,
                    final(self)@,
                    #[trigger] request_outcome(
                        app@,
                        requested.deep_view(),
                        decision.deep_view(),
                        now,
                    ),
                    r,
                ),
    {
        let decision = prompter.request(app, &requested);
        let now = clock();
        self.decide_at(app, requested, decision, now)
    }

    /// Revoke a grant by id. Cascades to all delegations rooted at it. Returns `true` if the grant
    /// (or any descendant) was live and is now revoked.
    pub fn revoke(&mut self, id: GrantId) -> (any: bool)
        requires
            old(self).wf(),
        ensures
            final(self).wf(),
            final(self)@.secret == old(self)@.secret,
            final(self)@.grants == revoked_from(old(self)@.grants, id.0),
            any == revocable(old(self)@.grants, id.0),
    {
        let ghost gs = self@.grants;
        let n = self.grants.len();
        let mut gone: Vec<bool> = Vec::new();
        let mut any = false;
        let mut i: usize = 0;
        while i < n
            invariant
                0 <= i <= n,
                n == gs.len(),
                n == self.grants@.len(),
                consistent(gs),
                self.secret == old(self).secret,
                self.tokens == old(self).tokens,
                gone@.len() == i,
                forall|j: int| 0 <= j < i ==> gone@[j] == #[trigger] descends(gs, id.0, j),
                forall|j: int|
                    0 <= j < n ==> (#[trigger] self.grants@[j]).id == old(self).grants@[j].id,
                forall|j: int|
                    0 <= j < i ==> (#[trigger] self.grants@[j]).deep_view() == marked(
                        gs[j],
                        descends(gs, id.0, j),
                    ),
                forall|j: int| i <= j < n ==> (#[trigger] self.grants@[j]).deep_view() == gs[j],
                any == exists|j: int|
                    0 <= j < i && !gs[j].revoked && #[trigger] descends(gs, id.0, j),
            decreases n - i,
        {
            assert(self.grants@[i as int].deep_view() == gs[i as int]);
            let down = match self.grants[i].parent {
                Some(p) => {
                    assert(gs[i as int].parent == Some(p.0));
                    let k: usize = (p.0 - 1) as usize;
                    assert(gone@[k as int] == descends(gs, id.0, p.0 - 1));
                    gone[k]
                },
                None => false,
            };
            let hit = i as u64 + 1 == id.0 || down;
            assert(hit == descends(gs, id.0, i as int));
            if hit && !self.grants[i].revoked {
                self.grants[i].revoked = true;
                any = true;
            }
            gone.push(hit);
            i = i + 1;
        }
        assert(self@.grants =~= revoked_from(gs, id.0));
        any
    }

    /// Revoke every grant held by an app (e.g. on module teardown).
    pub fn revoke_app(&mut self, app: &AppId) -> (count: usize)
        requires
            old(self).wf(),
        ensures
            final(self).wf(),
            final(self)@.secret == old(self)@.secret,
            (final(self)@.grants, count as nat) == revoked_of(
                old(self)@.grants,
                app@,
                old(self)@.grants.len(),
            ),
    {
        let ghost gs = self@.grants;
        let n = self.grants.len();
        let mut count: usize = 0;
        let mut i: usize = 0;
        while i < n
            invariant
                0 <= count <= i <= n,
                n == gs.len(),
                self.wf(),
                self@.grants.len() == n,
                self@.secret == old(self)@.secret,
                (self@.grants, count as nat) == revoked_of(gs, app@, i as nat),
                forall|j: int| 0 <= j < n ==> (#[trigger] self@.grants[j]).app == gs[j].app,
            decreases n - i,
        {
            assert(self@.grants[i as int] == self.grants@[i as int].deep_view());
            if str_eq(&self.grants[i].app, app) {
                let ghost before = self@.grants;
                if self.revoke(GrantId(i as u64 + 1)) {
                    count = count + 1;
                }
                assert forall|j: int| 0 <= j < n implies (#[trigger] self@.grants[j]).app
                    == gs[j].app by {
                    assert(before[j].app == gs[j].app);
                }
            }
            i = i + 1;
        }
        count
    }

    /// Delegate a child capability from a parent token at an instant. The child's effective scope
    /// is the intersection of `parent`'s capability and `child`; the child token is independently
    /// revocable (and revoking the parent also revokes the child).
    pub fn delegate_at(
        &mut self,
        parent_token: CapabilityToken,
        to_app: AppId,
        child: Capability,
        now: u64,
    ) -> (r: Result<CapabilityToken, CapabilityError>)
        requires
            old(self).wf(),
            old(self)@.grants.len() + 1 < u64::MAX,
        ensures
            final(self).wf(),
            settled(
                old(self)@,
                final(self)@,
                delegation(old(self)@, parent_token.0, to_app@, child.deep_view(), now),
                r,
            ),
    {
        let parent_id = match self.find(parent_token) {
            Some(id) => id,
            None => {
                return Err(CapabilityError::InvalidToken(parent_token));
            },
        };
        let n = self.grants.len();
        assert(parent_id.0 <= n);
        let i: usize = (parent_id.0 - 1) as usize;
        assert(self@.grants[i as int] == self.grants@[i as int].deep_view());
        if self.grants[i].revoked {
            return Err(
                CapabilityError::Revoked {
                    grant: parent_id,
                    reason: String::from_str("parent grant revoked"),
                },
            );
        }
        match intersect(&self.grants[i].capability, &child) {
            None => Err(CapabilityError::Denied { app: to_app, capability: child }),
            Some(scoped) => Ok(self.issue(to_app, scoped, Some(parent_id), None, now).1),
        }
    }

    /// Delegate a child capability from a parent token. The child's effective scope is the
    /// intersection of `parent`'s capability and `child`; the child token is independently
    /// revocable (and revoking the parent also revokes the child).
    pub fn delegate(&mut self, parent_token: CapabilityToken, to_app: AppId, child: Capability) -> (r:
        Result<CapabilityToken, CapabilityError>)
        requires
            old(self).wf(),
            old(self)@.grants.len() + 1 < u64::MAX,
        ensures
            final(self).wf(),
            exists|now: u64|
                clock_reads(now) && settled(
                    old(self)@,
                    final(self)@,
                    #[trigger] delegation(
                        old(self)@,
                        parent_token.0,
                        to_app@,
                        child.deep_view(),
                        now,
                    ),
                    r,
                ),
    {
        let now = clock();
        self.delegate_at(parent_token, to_app, child, now)
    }

    /// The grant that a token was handed out for, live or not.
    fn find(&self, token: CapabilityToken) -> (r: Option<GrantId>)
        requires
            self.wf(),
        ensures
            parent_of(r) == holder(self@, token.0),
            r matches Some(id) ==> held(self@, token.0, id.0),
    {
        let n = self.tokens.len();
        let mut i: usize = 0;
        while i < n
            invariant
                0 <= i <= n,
                n == self.tokens@.len(),
                self.wf(),
                forall|id: u64| 1 <= id <= i ==> !#[trigger] held(self@, token.0, id),
            decreases n - i,
        {
            if self.tokens[i].0 == token.0 {
                let id: u64 = i as u64 + 1;
                proof {
                    assert(held(self@, token.0, id));
                    lemma_holder(self@, token.0, id);
                }
                return Some(GrantId(id));
            }
            i = i + 1;
        }
        proof {
            reveal(holder);
        }
        None
    }

    /// Resolve a token to its grant id, if the grant is live at an instant.
    pub fn resolve_at(&self, token: CapabilityToken, now: u64) -> (r: Option<GrantId>)
        requires
            self.wf(),
        ensures
            parent_of(r) == resolved(self@, token.0, now),
    {
        match self.find(token) {
            Some(id) => {
                let n = self.grants.len();
                assert(id.0 <= n);
                let i: usize = (id.0 - 1) as usize;
                let grant = &self.grants[i];
                assert(self@.grants[i as int] == grant.deep_view());
                if grant.revoked || grant.is_expired(now) {
                    None
                } else {
                    Some(id)
                }
            },
            None => None,
        }
    }

    /// Resolve a token to its grant id (if live).
    pub fn resolve(&self, token: CapabilityToken) -> (r: Option<GrantId>)
        requires
            self.wf(),
        ensures
            exists|now: u64|
                clock_reads(now) && parent_of(r) == #[trigger] resolved(self@, token.0, now),
    {
        let now = clock();
        self.resolve_at(token, now)
    }

    /// Check whether `token` authorizes `requested` at an instant. Returns the matched grant id on
    /// success, or a [`CapabilityError`] describing the failure.
    pub fn check_at(&self, token: CapabilityToken, requested: &Capability, now: u64) -> (r: Result<
        GrantId,
        CapabilityError,
    >)
        requires
            self.wf(),
        ensures
            checked(r) == check_outcome(self@, token.0, requested.deep_view(), now),
    {
        let id = match self.find(token) {
            Some(id) => id,
            None => {
                return Err(CapabilityError::InvalidToken(token));
            },
        };
        let n = self.grants.len();
        assert(id.0 <= n);
        let i: usize = (id.0 - 1) as usize;
        let grant = &self.grants[i];
        assert(self@.grants[i as int] == grant.deep_view());
        if grant.revoked {
            return Err(
                CapabilityError::Revoked { grant: id, reason: String::from_str("grant revoked") },
            );
        }
        if grant.is_expired(now) {
            return Err(
                CapabilityError::Revoked { grant: id, reason: String::from_str("grant expired") },
            );
        }
        if contains(&grant.capability, requested) {
            Ok(id)
        } else {
            Err(
                CapabilityError::Denied {
                    app: grant.app.clone(),
                    capability: copy_capability(requested),
                },
            )
        }
    }

    /// Check whether `token` authorizes `requested`. Returns the matched grant id on success, or a
    /// [`CapabilityError`] describing the failure.
    pub fn check(&self, token: CapabilityToken, requested: &Capability) -> (r: Result<
        GrantId,
        CapabilityError,
    >)
        requires
            self.wf(),
        ensures
            exists|now: u64|
                clock_reads(now) && checked(r) == #[trigger] check_outcome(self@, token.0, requested.deep_view(), now),
    {
        let now = clock();
        self.check_at(token, requested, now)
    }

    /// Whether a live grant of `app` covers `requested` at an instant.
    pub fn authorizes(&self, app: &str, requested: &Capability, now: u64) -> (b: bool)
        requires
            self.wf(),
        ensures
            b == authorized(self@.grants, app@, requested.deep_view(), now),
    {
        let ghost gs = self@.grants;
        let mut i: usize = 0;
        while i < self.grants.len()
            invariant
                0 <= i <= self.grants@.len(),
                gs == self.grants.deep_view(),
                forall|j: int|
                    0 <= j < i ==> !(live(#[trigger] gs[j], app@, now) && grants(
                        gs[j].capability,
                        requested.deep_view(),
                    )),
            decreases self.grants@.len() - i,
        {
            let g = &self.grants[i];
            assert(gs[i as int] == g.deep_view());
            if str_eq(&g.app, app) && !g.revoked && !g.is_expired(now) && contains(
                &g.capability,
                requested,
            ) {
                assert(live(gs[i as int], app@, now));
                return true;
            }
            i = i + 1;
        }
        false
    }

    /// List the grants of an app that are live (non-revoked, non-expired) at an instant.
    pub fn list_grants_at(&self, app: &AppId, now: u64) -> (r: Vec<&Grant>)
        requires
            self.wf(),
        ensures
            lists(r@, self@.grants, app@, now),
    {
        let ghost gs = self@.grants;
        let mut out: Vec<&Grant> = Vec::new();
        let mut i: usize = 0;
        assert(gs.take(0) =~= Seq::<GrantView>::empty());
        while i < self.grants.len()
            invariant
                0 <= i <= self.grants@.len(),
                gs == self.grants.deep_view(),
                self.wf(),
                lists(out@, gs.take(i as int), app@, now),
            decreases self.grants@.len() - i,
        {
            assert(gs.take(i + 1).drop_last() =~= gs.take(i as int));
            let g = &self.grants[i];
            assert(gs.take(i + 1).last() == g.deep_view());
            if str_eq(&g.app, app) && !g.revoked && !g.is_expired(now) {
                out.push(g);
            }
            i = i + 1;
        }
        assert(gs.take(gs.len() as int) =~= gs);
        out
    }

    /// List live (non-revoked, non-expired) grants for an app.
    pub fn list_grants(&self, app: &AppId) -> (r: Vec<&Grant>)
        requires
            self.wf(),
        ensures
            exists|now: u64| clock_reads(now) && #[trigger] lists(r@, self@.grants, app@, now),
    {
        let now = clock();
        self.list_grants_at(app, now)
    }

    /// How many grants were issued.
    pub fn grant_count(&self) -> (n: usize)
        ensures
            n == self@.grants.len(),
    {
        self.grants.len()
    }
}

/// A check's result as a mathematical value.
pub open spec fn checked(r: Result<GrantId, CapabilityError>) -> Result<u64, ErrorView> {
    match r {
        Ok(id) => Ok(id.0),
        Err(e) => Err(e.deep_view()),
    }
}

/// Descent rests on the parents alone.
proof fn lemma_descends_same(a: Seq<GrantView>, b: Seq<GrantView>, root: u64, i: int)
    requires
        a.len() == b.len(),
        0 <= i < a.len(),
        forall|j: int| 0 <= j < a.len() ==> (#[trigger] a[j]).parent == b[j].parent,
    ensures
        descends(a, root, i) == descends(b, root, i),
    decreases i,
{
    assert(a[i].parent == b[i].parent);
    if let Some(p) = a[i].parent {
        if 1 <= p <= i {
            lemma_descends_same(a, b, root, p - 1);
        }
    }
}

/// What one revocation keeps: the grants stay the same but for the mark, no mark goes away, and
/// the broker stays consistent.
proof fn lemma_revoked_from(gs: Seq<GrantView>, root: u64)
    ensures
        revoked_from(gs, root).len() == gs.len(),
        forall|j: int|
            0 <= j < gs.len() ==> (#[trigger] revoked_from(gs, root)[j]) == marked(
                gs[j],
                descends(gs, root, j),
            ),
        consistent(gs) ==> consistent(revoked_from(gs, root)),
{
    let after = revoked_from(gs, root);
    if consistent(gs) {
        assert forall|i: int| 0 <= i < after.len() implies ((#[trigger] after[i]).parent matches Some(
            p,
        ) ==> 1 <= p <= i && (after[p - 1].revoked ==> after[i].revoked)) by {
            assert(after[i].parent == gs[i].parent);
            if let Some(p) = gs[i].parent {
                assert(1 <= p <= i);
                assert(after[p - 1] == marked(gs[p - 1], descends(gs, root, p - 1)));
            }
        }
    }
}

/// Revoking a grant revokes it and everything that was delegated from it, however far down, and
/// nothing else.
pub proof fn law_revocation_cascades(gs: Seq<GrantView>, root: u64, i: int)
    requires
        0 <= i < gs.len(),
    ensures
        revoked_from(gs, root)[i].revoked == (gs[i].revoked || descends(gs, root, i)),
        descends(gs, root, root - 1) || root == 0 || root > gs.len(),
        gs[i].parent matches Some(p) ==> (1 <= p <= i && revoked_from(gs, root)[p - 1].revoked
            && consistent(gs) ==> revoked_from(gs, root)[i].revoked),
{
    lemma_revoked_from(gs, root);
}

/// Revocation is final: once revoked, a grant stays revoked, whatever is revoked afterwards, and
/// revoking it again finds nothing to revoke.
pub proof fn law_revocation_is_final(gs: Seq<GrantView>, root: u64)
    ensures
        !revocable(revoked_from(gs, root), root),
        revoked_from(revoked_from(gs, root), root) == revoked_from(gs, root),
        forall|other: u64, i: int|
            0 <= i < gs.len() && gs[i].revoked ==> (#[trigger] revoked_from(gs, other)[i]).revoked,
{
    let once = revoked_from(gs, root);
    lemma_revoked_from(gs, root);
    assert forall|i: int| 0 <= i < gs.len() implies descends(once, root, i) == #[trigger] descends(
        gs,
        root,
        i,
    ) by {
        lemma_descends_same(once, gs, root, i);
    }
    assert forall|i: int| 0 <= i < once.len() && #[trigger] descends(once, root, i) implies once[i].revoked by {
        assert(descends(gs, root, i));
    }
    let twice = revoked_from(once, root);
    assert forall|i: int| 0 <= i < twice.len() implies twice[i] == once[i] by {
        assert(descends(once, root, i) == descends(gs, root, i));
    }
    assert(twice =~= once);
}

/// What the revocations of an app's grants keep.
proof fn lemma_revoked_of(gs: Seq<GrantView>, app: Seq<char>, k: nat)
    requires
        k <= gs.len(),
        gs.len() < u64::MAX,
    ensures
        revoked_of(gs, app, k).0.len() == gs.len(),
        forall|j: int|
            0 <= j < gs.len() ==> {
                let g = #[trigger] revoked_of(gs, app, k).0[j];
                &&& g == marked(gs[j], g.revoked)
                &&& gs[j].revoked ==> g.revoked
                &&& j < k && gs[j].app == app ==> g.revoked
            },
        consistent(gs) ==> consistent(revoked_of(gs, app, k).0),
        revoked_of(gs, app, k).1 <= k,
    decreases k,
{
    if k > 0 {
        lemma_revoked_of(gs, app, (k - 1) as nat);
        let before = revoked_of(gs, app, (k - 1) as nat).0;
        let after = revoked_of(gs, app, k).0;
        lemma_revoked_from(before, k as u64);
        assert forall|j: int| 0 <= j < gs.len() implies {
            let g = #[trigger] after[j];
            &&& g == marked(gs[j], g.revoked)
            &&& gs[j].revoked ==> g.revoked
            &&& j < k && gs[j].app == app ==> g.revoked
        } by {
            assert(before[j] == marked(gs[j], before[j].revoked));
            if gs[k - 1].app == app {
                assert(after[j] == marked(before[j], descends(before, k as u64, j)));
            }
        }
    }
}

/// Revoking an app leaves it without a live grant, at any instant, and changes no grant but by
/// revoking it.
pub proof fn law_revoked_app_has_no_live_grant(gs: Seq<GrantView>, app: Seq<char>, now: u64)
    requires
        consistent(gs),
    ensures
        live_grants(revoked_of(gs, app, gs.len()).0, app, now) == Seq::<GrantView>::empty(),
        consistent(revoked_of(gs, app, gs.len()).0),
        forall|requested: CapView|
            !#[trigger] authorized(revoked_of(gs, app, gs.len()).0, app, requested, now),
        forall|j: int|
            0 <= j < gs.len() ==> {
                let g = #[trigger] revoked_of(gs, app, gs.len()).0[j];
                g == marked(gs[j], g.revoked)
            },
{
    lemma_revoked_of(gs, app, gs.len());
    let after = revoked_of(gs, app, gs.len()).0;
    assert forall|j: int| 0 <= j < after.len() implies !live(#[trigger] after[j], app, now) by {
        assert(after[j] == marked(gs[j], after[j].revoked));
    }
    lemma_none_live(after, app, now);
}

/// Whether a grant is an app's, or was delegated, directly or through others, from one that is,
/// where that one is among the first `k`.
pub open spec fn stems_from(gs: Seq<GrantView>, app: Seq<char>, k: nat, i: int) -> bool {
    exists|root: u64|
        1 <= root <= k && gs[root - 1].app == app && #[trigger] descends(gs, root, i)
}

/// In a consistent broker, what was delegated from a revoked grant is revoked.
proof fn lemma_descendant_revoked(gs: Seq<GrantView>, root: u64, i: int)
    requires
        consistent(gs),
        1 <= root <= gs.len(),
        0 <= i < gs.len(),
        gs[root - 1].revoked,
        descends(gs, root, i),
    ensures
        gs[i].revoked,
    decreases i,
{
    if i + 1 != root {
        let p = gs[i].parent->0;
        lemma_descendant_revoked(gs, root, p - 1);
    }
}

/// What the revocations of an app's first grants come to.
proof fn lemma_revoked_exactly(gs: Seq<GrantView>, app: Seq<char>, k: nat)
    requires
        consistent(gs),
        k <= gs.len(),
    ensures
        revoked_of(gs, app, k).0.len() == gs.len(),
        forall|i: int|
            0 <= i < gs.len() ==> (#[trigger] revoked_of(gs, app, k).0[i]) == marked(
                gs[i],
                stems_from(gs, app, k, i),
            ),
        revoked_of(gs, app, k).1 == 0 <==> forall|i: int|
            0 <= i < k && (#[trigger] gs[i]).app == app ==> gs[i].revoked,
    decreases k,
{
    if k > 0 {
        let j = (k - 1) as nat;
        lemma_revoked_exactly(gs, app, j);
        lemma_revoked_of(gs, app, j);
        let before = revoked_of(gs, app, j).0;
        let after = revoked_of(gs, app, k).0;
        lemma_revoked_from(before, k as u64);
        assert forall|i: int| 0 <= i < gs.len() implies (#[trigger] after[i]) == marked(
            gs[i],
            stems_from(gs, app, k, i),
        ) by {
            assert(before[i] == marked(gs[i], stems_from(gs, app, j, i)));
            lemma_descends_same(before, gs, k as u64, i);
            if stems_from(gs, app, k, i) {
                let root = choose|root: u64|
                    1 <= root <= k && gs[root - 1].app == app && #[trigger] descends(gs, root, i);
                if root < k {
                    assert(stems_from(gs, app, j, i));
                }
            }
        }
        if gs[k - 1].app == app {
            assert(before[k - 1] == marked(gs[k - 1], stems_from(gs, app, j, k - 1)));
            if gs[k - 1].revoked && revocable(before, k as u64) {
                let i = choose|i: int|
                    0 <= i < before.len() && !before[i].revoked && #[trigger] descends(
                        before,
                        k as u64,
                        i,
                    );
                lemma_descendant_revoked(before, k as u64, i);
            }
            if revoked_of(gs, app, k).1 == 0 {
                assert(descends(before, k as u64, k - 1));
                assert(before[k - 1].revoked);
                if stems_from(gs, app, j, k - 1) {
                    let root = choose|root: u64|
                        1 <= root <= j && gs[root - 1].app == app && #[trigger] descends(
                            gs,
                            root,
                            k - 1,
                        );
                    assert(gs[root - 1].revoked);
                    lemma_descendant_revoked(gs, root, k - 1);
                }
            }
        }
    }
}

/// Revoking an app revokes every grant that it holds and everything delegated from those, and
/// changes nothing else. The count is zero if and only if the app held no unrevoked grant, and
/// revoking the app once more changes nothing and counts nothing.
pub proof fn law_revoking_an_app(gs: Seq<GrantView>, app: Seq<char>)
    requires
        consistent(gs),
    ensures
        ({
            let (after, count) = revoked_of(gs, app, gs.len());
            &&& after.len() == gs.len()
            &&& forall|i: int|
                0 <= i < gs.len() ==> (#[trigger] after[i]) == marked(
                    gs[i],
                    stems_from(gs, app, gs.len(), i),
                )
            &&& count == 0 <==> forall|i: int|
                0 <= i < gs.len() && (#[trigger] gs[i]).app == app ==> gs[i].revoked
            &&& revoked_of(after, app, after.len()) == (after, 0nat)
        }),
{
    let n = gs.len();
    lemma_revoked_exactly(gs, app, n);
    lemma_revoked_of(gs, app, n);
    let after = revoked_of(gs, app, n).0;
    lemma_revoked_exactly(after, app, n);
    assert forall|i: int| 0 <= i < n && (#[trigger] after[i]).app == app implies after[i].revoked by {
        assert(gs[i].app == app);
    }
    let again = revoked_of(after, app, n).0;
    assert forall|i: int| 0 <= i < n implies (#[trigger] again[i]) == after[i] by {
        if stems_from(after, app, n, i) {
            let root = choose|root: u64|
                1 <= root <= n && after[root - 1].app == app && #[trigger] descends(after, root, i);
            lemma_descendant_revoked(after, root, i);
        }
    }
    assert(again =~= after);
}

proof fn lemma_none_live(gs: Seq<GrantView>, app: Seq<char>, now: u64)
    requires
        forall|j: int| 0 <= j < gs.len() ==> !live(#[trigger] gs[j], app, now),
    ensures
        live_grants(gs, app, now) == Seq::<GrantView>::empty(),
    decreases gs.len(),
{
    if gs.len() > 0 {
        assert forall|j: int| 0 <= j < gs.drop_last().len() implies !live(
            #[trigger] gs.drop_last()[j],
            app,
            now,
        ) by {
            assert(gs.drop_last()[j] == gs[j]);
        }
        lemma_none_live(gs.drop_last(), app, now);
        assert(!live(gs[gs.len() - 1], app, now));
    }
}

/// A token handed out belongs to its own grant and to no earlier one, and every earlier token goes
/// on belonging to the grant it was handed out for.
pub proof fn law_tokens_resolve(b: BrokerView, g: GrantView, earlier: u128)
    requires
        b.grants.len() + 1 < u64::MAX,
    ensures
        holder(with_grant(b, g), next_token(b)) == Some((b.grants.len() + 1) as u64),
        holder(b, next_token(b)) is None,
        holder(b, earlier) is Some ==> holder(with_grant(b, g), earlier) == holder(b, earlier),
{
    let after = with_grant(b, g);
    let id = (b.grants.len() + 1) as u64;
    assert(held(after, next_token(b), id));
    lemma_holder(after, next_token(b), id);
    assert(holder(b, next_token(b)) is None) by {
        reveal(holder);
        if exists|i: u64| held(b, next_token(b), i) {
            let i = choose|i: u64| held(b, next_token(b), i);
            law_tokens_are_distinct(b.secret, i, id);
        }
    }
    if holder(b, earlier) is Some {
        assert(exists|i: u64| held(b, earlier, i)) by {
            reveal(holder);
        }
        let i = choose|i: u64| held(b, earlier, i);
        lemma_holder(b, earlier, i);
        assert(held(after, earlier, i));
        lemma_holder(after, earlier, i);
    }
}

/// A fresh grant authorizes what was granted: its token resolves to it and checks out for
/// everything that the granted capability covers, and the grant is listed, until it expires.
pub proof fn law_granted_is_allowed(
    b: BrokerView,
    app: Seq<char>,
    capability: CapView,
    expires_at: Option<u64>,
    issued_at: u64,
    requested: CapView,
    now: u64,
)
    requires
        b.grants.len() + 1 < u64::MAX,
        grants(capability, requested),
        expires_at matches Some(e) ==> now < e,
    ensures
        ({
            let g = issued(app, capability, None, expires_at, issued_at);
            &&& check_outcome(with_grant(b, g), next_token(b), requested, now) == Ok::<u64, ErrorView>(
                (b.grants.len() + 1) as u64,
            )
            &&& authorized(with_grant(b, g).grants, app, requested, now)
            &&& resolved(with_grant(b, g), next_token(b), now) == Some((b.grants.len() + 1) as u64)
            &&& live_ids(with_grant(b, g).grants, app, now).contains((b.grants.len() + 1) as u64)
        }),
{
    let g = issued(app, capability, None, expires_at, issued_at);
    law_tokens_resolve(b, g, 0);
    let after = with_grant(b, g);
    assert(after.grants[b.grants.len() as int] == g);
    assert(live(after.grants[b.grants.len() as int], app, now));
    let ids = live_ids(after.grants, app, now);
    assert(ids[ids.len() - 1] == (b.grants.len() + 1) as u64);
}

/// Issuing a grant adds that grant and touches no other: its token is new and belongs to it, one more
/// grant is counted, the fresh token checks out for what was granted, and every token issued before
/// is answered as before.
pub proof fn law_grant(
    b: BrokerView,
    app: Seq<char>,
    capability: CapView,
    expires_at: Option<u64>,
    issued_at: u64,
    earlier: u128,
    requested: CapView,
    now: u64,
)
    requires
        b.grants.len() + 1 < u64::MAX,
    ensures
        ({
            let after = with_grant(b, issued(app, capability, None, expires_at, issued_at));
            let id = (b.grants.len() + 1) as u64;
            &&& after.grants.len() == b.grants.len() + 1
            &&& holder(after, next_token(b)) == Some(id)
            &&& holder(b, earlier) is Some ==> earlier != next_token(b) && check_outcome(
                after,
                earlier,
                requested,
                now,
            ) == check_outcome(b, earlier, requested, now) && resolved(after, earlier, now)
                == resolved(b, earlier, now)
            &&& (expires_at matches Some(e) ==> now < e) ==> resolved(after, next_token(b), now)
                == Some(id) && check_outcome(after, next_token(b), capability, now) == Ok::<
                u64,
                ErrorView,
            >(id)
        }),
{
    let g = issued(app, capability, None, expires_at, issued_at);
    let after = with_grant(b, g);
    law_tokens_resolve(b, g, earlier);
    lemma_covers_itself(capability);
    if holder(b, earlier) is Some {
        assert(held(b, earlier, holder(b, earlier)->0)) by {
            reveal(holder);
        }
        assert(numbered(after, holder(b, earlier)->0) == numbered(b, holder(b, earlier)->0));
    }
    assert(numbered(after, (b.grants.len() + 1) as u64) == g);
}

/// Every capability covers itself.
proof fn lemma_covers_itself(c: CapView)
    ensures
        grants(c, c),
{
    match c {
        CapView::Network { hosts } => {
            assert forall|i: int| 0 <= i < hosts.len() implies #[trigger] host_covered(
                hosts,
                hosts[i],
            ) by {
                law_coverage_is_inclusion(hosts[i], hosts[i]);
                assert(covers(hosts[i], hosts[i]));
            }
        },
        CapView::Storage { scope } => {
            if let StorageView::Namespace(n) = scope {
                assert(n.subrange(0, n.len() as int) =~= n);
            }
        },
        _ => {},
    }
}

/// A grant with an expiry ends at it, in whatever broker it stands unrevoked: before, its token checks
/// out for what was granted and the grant is listed; from then on the token is refused as revoked and
/// the grant is not listed.
pub proof fn law_grant_until(b: BrokerView, token: u128, expires_at: u64, now: u64)
    requires
        b.grants.len() < u64::MAX,
        holder(b, token) matches Some(id) && !numbered(b, id).revoked && numbered(b, id).expires_at
            == Some(expires_at),
    ensures
        ({
            let id = holder(b, token)->0;
            let g = numbered(b, id);
            &&& now < expires_at ==> check_outcome(b, token, g.capability, now) == Ok::<
                u64,
                ErrorView,
            >(id) && live_ids(b.grants, g.app, now).contains(id)
            &&& now >= expires_at ==> check_outcome(b, token, g.capability, now) == Err::<
                u64,
                ErrorView,
            >(ErrorView::Revoked { grant: id, reason: "grant expired"@ }) && !live_ids(
                b.grants,
                g.app,
                now,
            ).contains(id)
        }),
{
    let id = holder(b, token)->0;
    assert(held(b, token, id)) by {
        reveal(holder);
    }
    lemma_covers_itself(numbered(b, id).capability);
    lemma_live_ids(b.grants, numbered(b, id).app, now, id);
}

/// The listed numbers are those of the live grants.
proof fn lemma_live_ids(gs: Seq<GrantView>, app: Seq<char>, now: u64, id: u64)
    requires
        gs.len() < u64::MAX,
    ensures
        live_ids(gs, app, now).contains(id) <==> 1 <= id <= gs.len() && live(gs[id - 1], app, now),
    decreases gs.len(),
{
    let ids = live_ids(gs, app, now);
    if gs.len() > 0 {
        let front = gs.drop_last();
        lemma_live_ids(front, app, now, id);
        let f = live_ids(front, app, now);
        if ids.contains(id) {
            let i = choose|i: int| 0 <= i < ids.len() && ids[i] == id;
            if i < f.len() {
                assert(f[i] == id);
                assert(f.contains(id));
            }
        }
        if 1 <= id <= gs.len() && live(gs[id - 1], app, now) {
            if id == gs.len() {
                assert(ids[ids.len() - 1] == id);
            } else {
                assert(f.contains(id));
                let i = choose|i: int| 0 <= i < f.len() && f[i] == id;
                assert(ids[i] == id);
            }
        }
    }
}

/// After a revocation, the token of the revoked grant and the tokens of everything delegated from
/// it are refused as revoked, and resolve to nothing.
pub proof fn law_revoked_is_refused(
    b: BrokerView,
    root: u64,
    token: u128,
    requested: CapView,
    now: u64,
)
    requires
        holder(b, token) matches Some(id) && descends(b.grants, root, id - 1),
    ensures
        ({
            let after = BrokerView { secret: b.secret, grants: revoked_from(b.grants, root) };
            check_outcome(after, token, requested, now) == Err::<u64, ErrorView>(
                ErrorView::Revoked { grant: holder(b, token)->0, reason: "grant revoked"@ },
            ) && resolved(after, token, now) is None
        }),
{
    let after = BrokerView { secret: b.secret, grants: revoked_from(b.grants, root) };
    lemma_revoked_from(b.grants, root);
    assert(exists|i: u64| held(b, token, i)) by {
        reveal(holder);
    }
    let i = choose|i: u64| held(b, token, i);
    lemma_holder(b, token, i);
    assert(held(after, token, i));
    lemma_holder(after, token, i);
    assert(after.grants[i - 1].revoked);
}

/// Nothing that a delegated token allows is out of reach of its parent: what the child's grant
/// covers, the parent's covers, and whatever the child's token is allowed at an instant, the
/// parent's token is allowed too, unless it has expired by then.
pub proof fn law_delegated_is_within_parent(
    b: BrokerView,
    parent: u128,
    to_app: Seq<char>,
    child: CapView,
    now: u64,
    requested: CapView,
    later: u64,
)
    requires
        b.grants.len() + 1 < u64::MAX,
        delegation(b, parent, to_app, child, now) is Ok,
    ensures
        ({
            let g = delegation(b, parent, to_app, child, now)->Ok_0;
            let id = holder(b, parent)->0;
            let after = with_grant(b, g);
            &&& g.parent == Some(id)
            &&& g.app == to_app
            &&& grants(numbered(b, id).capability, g.capability)
            &&& grants(child, g.capability)
            &&& grants(g.capability, requested) ==> grants(numbered(b, id).capability, requested)
            &&& check_outcome(after, next_token(b), requested, later) is Ok && !expired(
                numbered(b, id),
                later,
            ) ==> check_outcome(after, parent, requested, later) == Ok::<u64, ErrorView>(id)
        }),
{
    let id = holder(b, parent)->0;
    let g = delegation(b, parent, to_app, child, now)->Ok_0;
    law_delegation_narrows(numbered(b, id).capability, child, requested);
    law_tokens_resolve(b, g, parent);
    let after = with_grant(b, g);
    assert(held(b, parent, id)) by {
        reveal(holder);
    }
    assert(numbered(after, id) == numbered(b, id));
    assert(numbered(after, (b.grants.len() + 1) as u64) == g);
}

/// The part of a URL after its scheme, as far as it names one.
pub open spec fn after_scheme(url: Seq<char>) -> Seq<char> {
    match find_from(url, "://"@, 0) {
        Some(i) => url.skip(i + 3),
        None => url,
    }
}

/// The text before the first slash, question mark or hash.
pub open spec fn authority(s: Seq<char>) -> Seq<char> {
    before(before(before(s, "/"@), "?"@), "#"@)
}

/// The text after the last of a character, or all of it.
pub open spec fn after_last(s: Seq<char>, c: char) -> Seq<char>
    decreases s.len(),
{
    if s.len() == 0 {
        s
    } else if s.last() == c {
        Seq::empty()
    } else {
        after_last(s.drop_last(), c).push(s.last())
    }
}

/// The host of a URL.
pub open spec fn host_in(url: Seq<char>) -> Seq<char> {
    after_last(authority(after_scheme(url)), '@')
}

/// The text after the last of a character.
fn behind_last(v: &Vec<char>, c: char) -> (r: Vec<char>)
    ensures
        r@ == after_last(v@, c),
{
    let mut out: Vec<char> = Vec::new();
    let n = v.len();
    let mut i: usize = 0;
    assert(v@.take(0) =~= Seq::<char>::empty());
    assert(out@ =~= after_last(v@.take(0), c));
    while i < n
        invariant
            0 <= i <= n,
            n == v@.len(),
            out@ == after_last(v@.take(i as int), c),
        decreases n - i,
    {
        assert(v@.take(i + 1).drop_last() =~= v@.take(i as int));
        if v[i] == c {
            out = Vec::new();
            assert(out@ =~= Seq::<char>::empty());
        } else {
            out.push(v[i]);
        }
        i = i + 1;
    }
    assert(v@.take(n as int) =~= v@);
    out
}

/// Extract the host portion of a URL (`https://api.example.com/path` → `api.example.com`). Falls
/// back to the whole string if no scheme separator.
pub fn host_of(url: &str) -> (host: String)
    ensures
        host@ == host_in(url@),
{
    let v = chars_of(url);
    let n = v.len();
    let sep = chars_of("://");
    proof {
        reveal_strlit("://");
    }
    let rest = match search(&v, &sep, 0) {
        Some(i) => {
            assert(i + 3 <= n);
            tail(&v, i + 3)
        },
        None => v,
    };
    let a = cut_before(&cut_before(&cut_before(&rest, "/"), "?"), "#");
    string_of(&behind_last(&a, '@'))
}

} // verus!
