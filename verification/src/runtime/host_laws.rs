//! What capabilities allow, and what the host does with an operation that is allowed.
use crate::runtime::capability::{
    after_last, authority, authorized, covered_hosts, covers, dom_covers, expired, grants,
    host_covered, host_in, host_matches, hosts_cover, live, media_covers, narrowed, storage_covers,
    check_outcome, delegation, holder, request_outcome, BrokerView, CapView, DecisionView, DomScope,
    ErrorView, GrantView, HostView, StorageView,
};
use crate::runtime::guest::greeted;
use crate::runtime::stub::{
    allowed, attribute_set, change_needed, child_appended, click_added, clicks_of, create_needed,
    created, fetch_refusal, media_needed, media_refusal, storage_refusal, network_needed,
    player_created, playing_set, position_set, storage_needed, text_set, ElementId, StateView,
    VideoView,
};
use crate::string_laws::lemma_find_mark;
use crate::strings::{before, dec, ends, find_from, lemma_find_from, lower_seq, occurs};
use vstd::prelude::*;

verus! {

/// A pattern matches hosts in whatever case: an exact one its own host, one with a leading dot every
/// host that ends so, one without the domain itself and every host below it, and the last every host.
pub proof fn law_host_patterns(name: Seq<char>, host: Seq<char>)
    ensures
        host_matches(HostView::Any, host),
        host_matches(HostView::Exact(name), host) <==> lower_seq(name) == lower_seq(host),
        ({
            let d = lower_seq(name);
            let h = lower_seq(host);
            &&& name.len() > 0 && name[0] == '.' ==> (host_matches(HostView::Suffix(name), host)
                <==> exists|sub: Seq<char>| h == #[trigger] (sub + d))
            &&& name.len() == 0 || name[0] != '.' ==> (host_matches(HostView::Suffix(name), host)
                <==> h == d || exists|sub: Seq<char>| h == #[trigger] (sub + (seq!['.'] + d)))
        }),
{
    let d = lower_seq(name);
    let h = lower_seq(host);
    if name.len() > 0 {
        assert(d[0] == crate::strings::lower(name[0]));
    }
    lemma_ends(h, d);
    lemma_ends(h, seq!['.'] + d);
}

/// A text ends with another where something stands before it.
proof fn lemma_ends(s: Seq<char>, t: Seq<char>)
    ensures
        ends(s, t) <==> exists|sub: Seq<char>| s == #[trigger] (sub + t),
{
    if ends(s, t) {
        let sub = s.take(s.len() - t.len());
        assert(s =~= sub + t);
    }
    if exists|sub: Seq<char>| s == #[trigger] (sub + t) {
        let sub = choose|sub: Seq<char>| s == #[trigger] (sub + t);
        assert(s.skip(s.len() - t.len()) =~= t);
    }
}

/// A namespace covers the namespaces that start with it and nothing else; the whole store covers
/// everything and only itself covers it.
pub proof fn law_namespaces(a: Seq<char>, b: Seq<char>, scope: StorageView)
    ensures
        storage_covers(StorageView::Global, scope),
        !storage_covers(StorageView::Namespace(a), StorageView::Global),
        storage_covers(StorageView::Namespace(a), StorageView::Namespace(b)) <==> exists|rest: Seq<char>|
            b == #[trigger] (a + rest),
{
    if occurs(b, a, 0) {
        let rest = b.skip(a.len() as int);
        assert(b.subrange(0, a.len() as int) == a);
        assert(b =~= a + rest);
    }
    if exists|rest: Seq<char>| b == #[trigger] (a + rest) {
        let rest = choose|rest: Seq<char>| b == #[trigger] (a + rest);
        assert(b.subrange(0, a.len() as int) =~= a);
    }
}

/// The whole tree covers every part of it, a part covers itself alone; a bound on the size of media
/// covers what is no larger in either direction; and a capability covers nothing of another kind.
pub proof fn law_scopes(i: u64, j: u64, w: u32, h: u32, x: u32, y: u32, a: CapView, b: CapView)
    ensures
        dom_covers(DomScope::Full, DomScope::Full),
        dom_covers(DomScope::Full, DomScope::Subtree(i)),
        !dom_covers(DomScope::Subtree(i), DomScope::Full),
        dom_covers(DomScope::Subtree(i), DomScope::Subtree(j)) <==> i == j,
        media_covers(Some((w, h)), Some((x, y))) <==> x <= w && y <= h,
        media_covers(None, Some((x, y))),
        grants(a, b) ==> (a is Network <==> b is Network) && (a is Storage <==> b is Storage) && (a is Dom
            <==> b is Dom) && (a is Media <==> b is Media),
{
}

/// A child that asks for keys or for elements is given them where its parent covers them, and refused
/// otherwise; of media it gets the smaller size in either direction.
pub proof fn law_delegated_scopes(p: CapView, c: CapView, w: u32, h: u32, x: u32, y: u32)
    ensures
        c is Storage ==> (narrowed(p, c) is Some <==> grants(p, c)) && (grants(p, c) ==> narrowed(p, c)
            == Some(c)),
        c is Dom ==> (narrowed(p, c) is Some <==> grants(p, c)) && (grants(p, c) ==> narrowed(p, c)
            == Some(c)),
        narrowed(
            CapView::Media { max_resolution: Some((w, h)) },
            CapView::Media { max_resolution: Some((x, y)) },
        ) matches Some(CapView::Media { max_resolution: Some(m) }) && m.0 <= w && m.0 <= x && (m.0 == w
            || m.0 == x) && m.1 <= h && m.1 <= y && (m.1 == h || m.1 == y),
        narrowed(
            CapView::Media { max_resolution: Some((w, h)) },
            CapView::Media { max_resolution: None },
        ) == Some(CapView::Media { max_resolution: Some((w, h)) }),
        narrowed(
            CapView::Media { max_resolution: None },
            CapView::Media { max_resolution: Some((x, y)) },
        ) == Some(CapView::Media { max_resolution: Some((x, y)) }),
{
}

/// Of the hosts that a child asks for it is given those that its parent covers, all of them and in
/// order; where there are none it is refused.
pub proof fn law_delegated_hosts(p: Seq<HostView>, c: Seq<HostView>)
    ensures
        ({
            let kept = c.filter(|x: HostView| host_covered(p, x));
            narrowed(CapView::Network { hosts: p }, CapView::Network { hosts: c }) == (if kept.len() > 0 {
                Some(CapView::Network { hosts: kept })
            } else {
                None
            })
        }),
{
    lemma_covered(p, c);
}

proof fn lemma_covered(p: Seq<HostView>, c: Seq<HostView>)
    ensures
        covered_hosts(p, c) == c.filter(|x: HostView| host_covered(p, x)),
    decreases c.len(),
{
    reveal(Seq::filter);
    if c.len() > 0 {
        lemma_covered(p, c.drop_last());
    }
    assert(covered_hosts(p, c) =~= c.filter(|x: HostView| host_covered(p, x)));
}

/// Whether a text holds none of the characters that end a host.
pub open spec fn in_authority(s: Seq<char>) -> bool {
    forall|i: int| 0 <= i < s.len() ==> #[trigger] s[i] != '/' && s[i] != '?' && s[i] != '#'
}

/// What stands before a mark, where a text goes on behind a part that is free of it.
#[verifier::rlimit(40)]
proof fn lemma_before(x: Seq<char>, tail: Seq<char>, m: Seq<char>) -> (rest: Seq<char>)
    requires
        m.len() == 1,
        !x.contains(m[0]),
    ensures
        before(x + tail, m) == x + rest,
        rest.len() == 0 || (tail.len() > 0 && rest[0] == tail[0]),
        tail.len() == 0 || tail[0] == m[0] ==> rest.len() == 0,
{
    let s = x + tail;
    let n = x.len() as int;
    lemma_find_from(s, m, 0);
    match find_from(s, m, 0) {
        Some(i) => {
            assert(s.subrange(i, i + 1)[0] == s[i]);
            if i < n {
                assert(s[i] == x[i]);
                assert(x.contains(m[0]));
            }
            let rest = tail.take(i - n);
            assert(s.take(i) =~= x + rest);
            if tail.len() > 0 && tail[0] == m[0] && i > n {
                assert(s.subrange(n, n + 1) =~= m);
                assert(occurs(s, m, n));
            }
            rest
        },
        None => {
            if tail.len() > 0 && tail[0] == m[0] {
                assert(s.subrange(n, n + 1) =~= m);
                assert(occurs(s, m, n));
            }
            tail
        },
    }
}

proof fn lemma_authority(x: Seq<char>, tail: Seq<char>)
    requires
        in_authority(x),
        tail.len() == 0 || tail[0] == '/' || tail[0] == '?' || tail[0] == '#',
    ensures
        authority(x + tail) == x,
{
    reveal_strlit("/");
    reveal_strlit("?");
    reveal_strlit("#");
    let a = lemma_before(x, tail, "/"@);
    let b = lemma_before(x, a, "?"@);
    let c = lemma_before(x, b, "#"@);
    assert(c.len() == 0);
    assert(x + c =~= x);
}

proof fn lemma_after_last(user: Seq<char>, host: Seq<char>)
    requires
        !host.contains('@'),
    ensures
        after_last(user + seq!['@'] + host, '@') == host,
        after_last(host, '@') == host,
    decreases host.len(),
{
    let s = user + seq!['@'] + host;
    if host.len() == 0 {
        assert(s.last() == '@');
        assert(host =~= Seq::<char>::empty());
    } else {
        let h = host.drop_last();
        assert(host.contains(host.last()));
        assert(!h.contains('@')) by {
            if h.contains('@') {
                let i = choose|i: int| 0 <= i < h.len() && h[i] == '@';
                assert(host[i] == '@');
            }
        }
        lemma_after_last(user, h);
        assert(s.drop_last() =~= user + seq!['@'] + h);
        assert(s.last() == host.last());
        assert(h.push(host.last()) =~= host);
    }
}

/// The host of an address stands behind its scheme and behind the user, where it names one, and
/// before its path, its query and its fragment.
#[verifier::rlimit(40)]
pub proof fn law_host_of_address(
    scheme: Seq<char>,
    user: Seq<char>,
    host: Seq<char>,
    tail: Seq<char>,
)
    requires
        !scheme.contains(':'),
        in_authority(user),
        in_authority(host),
        !host.contains('@'),
        tail.len() == 0 || tail[0] == '/' || tail[0] == '?' || tail[0] == '#',
    ensures
        host_in(scheme + seq![':', '/', '/'] + (host + tail)) == host,
        host_in(scheme + seq![':', '/', '/'] + (user + seq!['@'] + host + tail)) == host,
{
    reveal_strlit("://");
    let mark = "://"@;
    assert(mark =~= seq![':', '/', '/']);
    assert forall|i: int| !#[trigger] occurs(scheme, mark, i) by {
        if occurs(scheme, mark, i) {
            assert(scheme.subrange(i, i + 3)[0] == scheme[i]);
            assert(scheme.contains(':'));
        }
    }
    let full = user + seq!['@'] + host;
    assert(in_authority(full)) by {
        assert forall|i: int| 0 <= i < full.len() implies #[trigger] full[i] != '/' && full[i] != '?'
            && full[i] != '#' by {
            if i < user.len() {
                assert(full[i] == user[i]);
            } else if i > user.len() {
                assert(full[i] == host[i - user.len() - 1]);
            }
        }
    }
    lemma_find_mark(scheme, mark, host + tail);
    lemma_find_mark(scheme, mark, full + tail);
    let n = scheme.len() as int;
    let s = scheme + mark + (host + tail);
    let t = scheme + mark + (full + tail);
    assert(s.skip(n + 3) =~= host + tail);
    assert(t.skip(n + 3) =~= full + tail);
    lemma_authority(host, tail);
    lemma_authority(full, tail);
    lemma_after_last(user, host);
}

/// An app whose one grant is live may fetch from the hosts that the grant matches, use the keys in
/// its namespace, create elements where it has the whole tree, change the element that it has, and
/// play what is within its bound; and nothing else.
#[verifier::rlimit(40)]
pub proof fn law_one_grant(
    s: StateView,
    g: GrantView,
    now: u64,
    url: Seq<char>,
    key: Seq<char>,
    id: u64,
    video: VideoView,
)
    requires
        s.guard matches Some(guard) && guard.1.grants == seq![g] && g.app == guard.0,
        !g.revoked,
        g.expires_at matches Some(e) ==> now < e,
    ensures
        allowed(s, network_needed(url), now) <==> (g.capability matches CapView::Network { hosts }
            && exists|j: int| 0 <= j < hosts.len() && host_matches(#[trigger] hosts[j], host_in(url))),
        allowed(s, storage_needed(key), now) <==> (g.capability matches CapView::Storage { scope } && (
        scope is Global || (scope matches StorageView::Namespace(n) && exists|rest: Seq<char>|
            key == #[trigger] (n + rest)))),
        allowed(s, create_needed(), now) <==> g.capability == (CapView::Dom { scope: DomScope::Full }),
        allowed(s, change_needed(id), now) <==> g.capability == (CapView::Dom { scope: DomScope::Full })
            || g.capability == (CapView::Dom { scope: DomScope::Subtree(id) }),
        allowed(s, media_needed(video), now) <==> (g.capability matches CapView::Media {
            max_resolution,
        } && (max_resolution matches Some(m) ==> video.width <= m.0 && video.height <= m.1)),
{
    let (app, b) = s.guard->0;
    let gs = b.grants;
    assert(gs[0] == g);
    assert(live(gs[0], app, now));
    assert forall|needed: CapView| #[trigger] allowed(s, needed, now) <==> grants(g.capability, needed) by {
        if authorized(gs, app, needed, now) {
            let i = choose|i: int|
                0 <= i < gs.len() && live(#[trigger] gs[i], app, now) && grants(
                    gs[i].capability,
                    needed,
                );
            assert(i == 0);
        }
        if grants(g.capability, needed) {
            assert(live(gs[0], app, now) && grants(gs[0].capability, needed));
        }
    }
    if let CapView::Network { hosts } = g.capability {
        lemma_one_host(hosts, host_in(url));
    }
    if let CapView::Storage { scope } = g.capability {
        if let StorageView::Namespace(n) = scope {
            law_namespaces(n, key, scope);
        }
    }
}

proof fn lemma_one_host(hosts: Seq<HostView>, host: Seq<char>)
    ensures
        hosts_cover(hosts, seq![HostView::Exact(host)]) <==> exists|j: int|
            0 <= j < hosts.len() && host_matches(#[trigger] hosts[j], host),
{
    let one = seq![HostView::Exact(host)];
    assert(one[0] == HostView::Exact(host));
    if hosts_cover(hosts, one) {
        assert(host_covered(hosts, one[0]));
        let j = choose|j: int| 0 <= j < hosts.len() && covers(#[trigger] hosts[j], one[0]);
        assert(host_matches(hosts[j], host));
    }
    if exists|j: int| 0 <= j < hosts.len() && host_matches(#[trigger] hosts[j], host) {
        let j = choose|j: int| 0 <= j < hosts.len() && host_matches(#[trigger] hosts[j], host);
        assert(covers(hosts[j], one[0]));
        assert(host_covered(hosts, one[0]));
        assert forall|i: int| 0 <= i < one.len() implies #[trigger] host_covered(hosts, one[i]) by {
            assert(i == 0);
        }
    }
}

/// An operation on an element changes what it names and nothing else: its text, one of its
/// attributes, or its children by one more at the end; every other element and everything else of
/// the host stays.
pub proof fn law_element_operations(
    s: StateView,
    id: u64,
    other: int,
    text: Seq<char>,
    name: Seq<char>,
    child: ElementId,
    now: u64,
)
    requires
        id < s.elements.len(),
        allowed(s, change_needed(id), now),
        0 <= other < s.elements.len(),
        other != id,
    ensures
        ({
            let was = s.elements[id as int];
            let a = text_set(s, id, text, now);
            let b = attribute_set(s, id, name, text, now);
            let c = child_appended(s, id, child, now);
            let x = a.elements[id as int];
            let y = b.elements[id as int];
            let z = c.elements[id as int];
            &&& x.text == text && x.tag == was.tag && x.attributes == was.attributes && x.children
                == was.children
            &&& y.attributes == was.attributes.insert(name, text) && y.text == was.text && y.tag
                == was.tag && y.children == was.children
            &&& z.children == was.children.push(child) && z.text == was.text && z.tag == was.tag
                && z.attributes == was.attributes
            &&& a.elements[other] == s.elements[other] && b.elements[other] == s.elements[other]
                && c.elements[other] == s.elements[other]
            &&& a.store == s.store && b.store == s.store && c.store == s.store
            &&& a.clicks == s.clicks && b.clicks == s.clicks && c.clicks == s.clicks
            &&& a.elements.len() == s.elements.len() && b.elements.len() == s.elements.len()
                && c.elements.len() == s.elements.len()
        }),
{
}

/// A new element has its tag and nothing else; a new click handler comes behind those of its element
/// and touches no other's; a new player stands still at its start, with the picture it was made for,
/// and playing it or moving it does only that.
pub proof fn law_new_things(
    s: StateView,
    tag: Seq<char>,
    id: u64,
    other: u64,
    handler: u64,
    video: VideoView,
    at: u64,
    now: u64,
)
    requires
        id != other,
    ensures
        allowed(s, create_needed(), now) ==> {
            let r = created(s, tag, now);
            let e = r.0.elements.last();
            &&& r.0.elements.len() == s.elements.len() + 1
            &&& e.tag == tag && e.text.len() == 0 && e.children.len() == 0 && e.attributes == Map::<
                Seq<char>,
                Seq<char>,
            >::empty()
        },
        allowed(s, change_needed(id), now) ==> {
            let r = click_added(s, id, handler, now);
            &&& clicks_of(r, id) == clicks_of(s, id).push(handler)
            &&& clicks_of(r, other) == clicks_of(s, other)
            &&& r.elements == s.elements
        },
        ({
            let r = player_created(s, video);
            let p = r.players.last();
            &&& r.players.len() == s.players.len() + 1
            &&& p.config == video && !p.playing && p.position_ms == 0
        }),
        id < s.players.len() && allowed(s, media_needed(s.players[id as int].config), now) ==> {
            let was = s.players[id as int];
            let on = playing_set(s, id, true, now).players[id as int];
            let off = playing_set(s, id, false, now).players[id as int];
            let moved = position_set(s, id, at, now).players[id as int];
            &&& on.playing && !off.playing && moved.playing == was.playing
            &&& on.position_ms == was.position_ms && off.position_ms == was.position_ms
                && moved.position_ms == at
            &&& on.config == was.config && moved.config == was.config
        },
{
}

/// What a user decides is what an app gets: what it asked for, what the user made of it, or nothing. A
/// grant is the app's own, is not revoked, has no end and no parent, and tells when it was given.
pub proof fn law_decisions(app: Seq<char>, asked: CapView, made: CapView, now: u64)
    ensures
        request_outcome(app, asked, DecisionView::Deny, now) == Err::<GrantView, ErrorView>(
            ErrorView::Denied { app, capability: asked },
        ),
        request_outcome(app, asked, DecisionView::Allow, now) matches Ok(g) && g.capability == asked
            && g.app == app && !g.revoked && g.issued_at == now && g.expires_at is None && g.parent is None,
        request_outcome(app, asked, DecisionView::Modify(made), now) matches Ok(g) && g.capability == made
            && g.app == app && !g.revoked && g.issued_at == now && g.expires_at is None && g.parent is None,
{
}

/// A token that stands for a grant is answered by what became of the grant: with its number where it
/// still holds and covers what is asked for, and otherwise with why it does not.
pub proof fn law_checks_tell_why(b: BrokerView, token: u128, asked: CapView, now: u64)
    ensures
        holder(b, token) is None ==> check_outcome(b, token, asked, now) == Err::<u64, ErrorView>(
            ErrorView::InvalidToken(token),
        ),
        holder(b, token) matches Some(id) ==> {
            let g = b.grants[id - 1];
            let over = g.expires_at matches Some(e) && now >= e;
            let r = check_outcome(b, token, asked, now);
            &&& g.revoked ==> r == Err::<u64, ErrorView>(
                ErrorView::Revoked { grant: id, reason: "grant revoked"@ },
            )
            &&& !g.revoked && over ==> r == Err::<u64, ErrorView>(
                ErrorView::Revoked { grant: id, reason: "grant expired"@ },
            )
            &&& !g.revoked && !over && grants(g.capability, asked) ==> r == Ok::<u64, ErrorView>(id)
            &&& !g.revoked && !over && !grants(g.capability, asked) ==> r == Err::<u64, ErrorView>(
                ErrorView::Denied { app: g.app, capability: asked },
            )
        },
{
}

/// A delegated grant belongs to the other app, hangs on the grant that it comes from, and covers no
/// more than both what that covers and what was asked for; it comes of a grant that is not revoked.
pub proof fn law_delegations(b: BrokerView, token: u128, app: Seq<char>, asked: CapView, now: u64)
    ensures
        holder(b, token) is None ==> delegation(b, token, app, asked, now) == Err::<GrantView, ErrorView>(
            ErrorView::InvalidToken(token),
        ),
        holder(b, token) matches Some(id) ==> {
            let g = b.grants[id - 1];
            let r = delegation(b, token, app, asked, now);
            &&& g.revoked ==> r == Err::<GrantView, ErrorView>(
                ErrorView::Revoked { grant: id, reason: "parent grant revoked"@ },
            )
            &&& !g.revoked && narrowed(g.capability, asked) is None ==> r == Err::<GrantView, ErrorView>(
                ErrorView::Denied { app, capability: asked },
            )
            &&& !g.revoked ==> (narrowed(g.capability, asked) matches Some(c) ==> (r matches Ok(n)
                && n.app == app && n.capability == c && n.parent == Some(id) && !n.revoked && n.issued_at
                == now && n.expires_at is None))
        },
{
}

/// A refusal names what was refused: the address, the key, or the size of the picture.
pub proof fn law_refusals_name_what_was_asked(url: Seq<char>, key: Seq<char>, video: VideoView)
    ensures
        fetch_refusal(url) == "network capability denied or no route for "@ + url,
        storage_refusal(key) == "storage capability denied for "@ + key,
        media_refusal(video) == "media capability denied for "@ + dec(video.width as nat) + seq!['x']
            + dec(video.height as nat),
{
    reveal_strlit("x");
    assert("x"@ =~= seq!['x']);
}

/// The example guest leaves a `div` and a `span` behind what was there: the `div` with its class and
/// the `span` as its child and with one more click handler, the `span` with the greeting; and it
/// keeps a value. Nothing else changes.
pub proof fn law_greeting(s: StateView, other: u64)
    requires
        s.elements.len() + 2 < u64::MAX,
        other != s.elements.len(),
    ensures
        ({
            let r = greeted(s);
            let n = s.elements.len() as int;
            let root = r.elements[n];
            let child = r.elements[n + 1];
            &&& r.elements.len() == n + 2
            &&& r.elements.take(n) == s.elements
            &&& root.tag == "div"@ && root.text.len() == 0 && root.children == seq![
                ElementId { id: (n + 1) as u64 },
            ]
            &&& root.attributes == map!["class"@ => "greeting"@]
            &&& child.tag == "span"@ && child.text == "hello from guest"@ && child.children.len() == 0
            &&& clicks_of(r, n as u64) == clicks_of(s, n as u64).push(1)
            &&& clicks_of(r, other) == clicks_of(s, other)
            &&& r.store == s.store.insert("seen"@, seq![121u8, 101, 115])
            &&& r.routes == s.routes && r.players == s.players && r.guard == s.guard
        }),
{
    assert(greeted(s).elements.take(s.elements.len() as int) =~= s.elements);
    assert(greeted(s).elements[s.elements.len() as int].attributes =~= map!["class"@ => "greeting"@]);
}

} // verus!
