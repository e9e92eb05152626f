//! Which browser origins may use the API.
use crate::api::auth::{filled, opt_view};
use crate::api::env_file;
use crate::text;
use vstd::prelude::*;
use vstd::slice::slice_subrange;

verus! {

/// A parsed allow-origin policy.
#[derive(Debug, Clone)]
pub struct AllowedOrigins {
    /// Exact origins that are allowed, lowercased.
    pub exact: Vec<String>,
    /// `EULLM_ALLOWED_ORIGINS=*` — allow everything, explicitly requested.
    pub allow_any: bool,
    /// Allow any loopback origin regardless of port (the default posture).
    pub allow_loopback: bool,
    pub source: String,
}

/// `s` without the slashes at its end.
pub open spec fn unslashed(s: Seq<char>) -> Seq<char>
    decreases s.len(),
{
    if s.len() > 0 && s.last() == '/' {
        unslashed(s.drop_last())
    } else {
        s
    }
}

fn trim_slashes(s: &[char]) -> (r: &[char])
    ensures
        r@ == unslashed(s@),
{
    let mut n: usize = s.len();
    assert(s@.take(n as int) =~= s@);
    while n > 0 && s[n - 1] == '/'
        invariant
            n <= s@.len(),
            unslashed(s@) == unslashed(s@.take(n as int)),
        decreases n,
    {
        assert(s@.take(n as int).drop_last() =~= s@.take(n - 1));
        n = n - 1;
    }
    let r: &[char] = slice_subrange(s, 0, n);
    assert(r@ =~= s@.take(n as int));
    r
}

/// An origin as it is compared: without slashes at the end, in lower case.
pub open spec fn normal(s: Seq<char>) -> Seq<char> {
    text::lowered(unslashed(s))
}

/// A colon and a port number.
pub open spec fn port_suffix(s: Seq<char>) -> bool {
    s.len() > 1 && s[0] == ':' && text::all_digits(s.skip(1))
}

/// Whether `s` is exactly `:<digits>` — a port and nothing else.
pub fn is_port_suffix(s: &str) -> (r: bool)
    ensures
        r == port_suffix(s@),
{
    let c: Vec<char> = text::to_chars(s);
    is_port(&c)
}

fn is_port(c: &[char]) -> (r: bool)
    ensures
        r == port_suffix(c@),
{
    if c.len() < 2 || c[0] != ':' {
        return false;
    }
    let mut i: usize = 1;
    while i < c.len()
        invariant
            1 <= i <= c@.len(),
            forall|j: int| 1 <= j < i ==> text::is_digit(#[trigger] c@[j]),
        decreases c.len() - i,
    {
        if c[i] < '0' || c[i] > '9' {
            assert(!text::is_digit(c@.skip(1)[i - 1]));
            return false;
        }
        i = i + 1;
    }
    assert forall|j: int| 0 <= j < c@.skip(1).len() implies text::is_digit(
        #[trigger] c@.skip(1)[j],
    ) by {
        assert(text::is_digit(c@[j + 1]));
    }
    true
}

/// The origin is `site`, with or without a port.
pub open spec fn at_site(origin: Seq<char>, site: Seq<char>) -> bool {
    &&& text::is_prefix(site, origin)
    &&& origin.len() == site.len() || port_suffix(origin.skip(site.len() as int))
}

/// The origin points at the local machine, on any port.
pub open spec fn loopback_origin(origin: Seq<char>) -> bool {
    ||| at_site(origin, "http://localhost"@)
    ||| at_site(origin, "http://127.0.0.1"@)
    ||| at_site(origin, "http://[::1]"@)
    ||| at_site(origin, "https://localhost"@)
    ||| at_site(origin, "https://127.0.0.1"@)
    ||| at_site(origin, "https://[::1]"@)
}

fn is_at_site(origin: &[char], site: &str) -> (r: bool)
    ensures
        r == at_site(origin@, site@),
{
    let s: Vec<char> = text::to_chars(site);
    if !text::starts_with(origin, &s) {
        return false;
    }
    let tail: &[char] = slice_subrange(origin, s.len(), origin.len());
    assert(tail@ =~= origin@.skip(s@.len() as int));
    tail.len() == 0 || is_port(tail)
}

/// Whether an origin points at the local machine, on any port. The host is
/// compared for equality, never by suffix.
pub fn is_loopback_origin(origin: &str) -> (r: bool)
    ensures
        r == loopback_origin(origin@),
{
    let o: Vec<char> = text::to_chars(origin);
    is_at_site(&o, "http://localhost") || is_at_site(&o, "http://127.0.0.1") || is_at_site(
        &o,
        "http://[::1]",
    ) || is_at_site(&o, "https://localhost") || is_at_site(&o, "https://127.0.0.1") || is_at_site(
        &o,
        "https://[::1]",
    )
}

/// The origins that a list names, as they are compared; a star is none.
pub open spec fn named(entries: Seq<Seq<char>>) -> Seq<Seq<char>>
    decreases entries.len(),
{
    if entries.len() == 0 {
        Seq::empty()
    } else {
        let e = text::trimmed(entries.last());
        let before = named(entries.drop_last());
        if e.len() == 0 || e == "*"@ {
            before
        } else {
            before.push(normal(e))
        }
    }
}

/// The list holds a star.
pub open spec fn has_star(entries: Seq<Seq<char>>) -> bool {
    exists|i: int| 0 <= i < entries.len() && text::trimmed(#[trigger] entries[i]) == "*"@
}

impl AllowedOrigins {
    /// The policy that a list of origins sets: loopback stays allowed.
    pub open spec fn is_from(self, spec_text: Seq<char>, source: Seq<char>) -> bool {
        let entries = text::pieces(spec_text, ',');
        &&& text::views(self.exact@) == named(entries)
        &&& self.allow_any == has_star(entries)
        &&& self.allow_loopback
        &&& self.source@ == source
    }

    /// The policy when nothing is configured.
    pub open spec fn is_default(self) -> bool {
        &&& self.exact@.len() == 0
        &&& !self.allow_any
        &&& self.allow_loopback
        &&& self.source@ == "default (any loopback origin — nothing configured)"@
    }

    /// The default: loopback origins on any port, nothing else.
    pub fn loopback_only() -> (r: Self)
        ensures
            r.is_default(),
    {
        AllowedOrigins {
            exact: Vec::new(),
            allow_any: false,
            allow_loopback: true,
            source: text::copy_text("default (any loopback origin — nothing configured)"),
        }
    }

    /// Resolves the policy from the environment, falling back to a `.env` file.
    pub fn resolve(
        env_spec: Option<&str>,
        file_contents: Option<&str>,
        file_label: &str,
    ) -> (r: Self)
        ensures
            match filled(opt_view(env_spec)) {
                Some(t) => r.is_from(t, "EULLM_ALLOWED_ORIGINS (environment)"@),
                None => match file_contents {
                    Some(contents) => match env_file::variable(
                        contents@,
                        "EULLM_ALLOWED_ORIGINS"@,
                    ) {
                        Some(t) => r.is_from(t, "EULLM_ALLOWED_ORIGINS ("@ + file_label@ + ")"@),
                        None => r.is_default(),
                    },
                    None => r.is_default(),
                },
            },
    {
        if let Some(t) = env_spec {
            let chars: Vec<char> = text::to_chars(t);
            let own: &[char] = text::trim(&chars);
            if own.len() > 0 {
                return Self::parse(
                    text::from_chars(own).as_str(),
                    text::copy_text("EULLM_ALLOWED_ORIGINS (environment)"),
                );
            }
        }
        if let Some(contents) = file_contents {
            if let Some(t) = env_file::env_file_var(contents, "EULLM_ALLOWED_ORIGINS") {
                let mut source: String = text::copy_text("EULLM_ALLOWED_ORIGINS (");
                source.append(file_label);
                source.append(")");
                return Self::parse(t.as_str(), source);
            }
        }
        Self::loopback_only()
    }

    /// The policy that a comma-separated list of origins sets. Loopback stays
    /// allowed, so configuring a remote frontend cannot lock the operator out.
    pub fn parse(spec_text: &str, source: String) -> (r: Self)
        ensures
            r.is_from(spec_text@, source@),
    {
        let chars: Vec<char> = text::to_chars(spec_text);
        let entries: Vec<Vec<char>> = text::split(&chars, ',');
        let ghost all = text::rows(entries@);
        let mut exact: Vec<String> = Vec::new();
        let mut allow_any: bool = false;
        let star: Vec<char> = text::to_chars("*");
        let mut i: usize = 0;
        assert(all.take(0) =~= Seq::empty());
        assert(text::views(exact@) =~= Seq::empty());
        while i < entries.len()
            invariant
                i <= entries@.len(),
                all == text::rows(entries@),
                star@ == "*"@,
                text::views(exact@) == named(all.take(i as int)),
                allow_any ==> has_star(all),
                !allow_any ==> forall|j: int|
                    0 <= j < i ==> text::trimmed(#[trigger] all[j]) != "*"@,
            decreases entries.len() - i,
        {
            proof {
                assert(all.take(i + 1).drop_last() =~= all.take(i as int));
                assert(all.take(i + 1).last() == entries@[i as int]@);
                assert(all[i as int] == entries@[i as int]@);
            }
            let e: &[char] = text::trim(&entries[i]);
            if text::same_chars(e, &star) {
                allow_any = true;
            } else if e.len() > 0 {
                let ghost before = text::views(exact@);
                exact.push(text::from_chars(&text::lower_chars(trim_slashes(e))));
                assert(text::views(exact@) =~= before.push(normal(e@)));
            }
            i = i + 1;
        }
        assert(all.take(i as int) =~= all);
        AllowedOrigins { exact, allow_any, allow_loopback: true, source }
    }

    /// Where the configuration came from — for the startup log.
    pub fn source(&self) -> (r: &str)
        ensures
            r@ == self.source@,
    {
        self.source.as_str()
    }

    /// The parts of the startup summary.
    pub open spec fn summary(self) -> Seq<Seq<char>> {
        (if self.allow_loopback {
            seq!["any loopback origin"@]
        } else {
            seq![]
        }) + text::views(self.exact@)
    }

    /// Human-readable summary for the startup log.
    pub fn describe(&self) -> (r: String)
        ensures
            r@ == if self.allow_any {
                "* (any origin — explicitly configured)"@
            } else {
                text::joined(self.summary(), ", "@)
            },
    {
        if self.allow_any {
            return text::copy_text("* (any origin — explicitly configured)");
        }
        let mut parts: Vec<String> = Vec::new();
        if self.allow_loopback {
            parts.push(text::copy_text("any loopback origin"));
        }
        let ghost head = text::views(parts@);
        let mut i: usize = 0;
        assert(head + text::views(self.exact@).take(0) =~= head);
        while i < self.exact.len()
            invariant
                i <= self.exact@.len(),
                text::views(parts@) == head + text::views(self.exact@).take(i as int),
            decreases self.exact.len() - i,
        {
            let ghost before = text::views(parts@);
            let part: String = text::copy_text(self.exact[i].as_str());
            parts.push(part);
            proof {
                assert(text::views(parts@) =~= before.push(self.exact@[i as int]@));
                assert(text::views(self.exact@).take(i + 1) =~= text::views(self.exact@).take(
                    i as int,
                ).push(self.exact@[i as int]@));
                assert(text::views(parts@) =~= head + text::views(self.exact@).take(i + 1));
            }
            i = i + 1;
        }
        assert(text::views(parts@) =~= self.summary());
        text::join(&parts, ", ")
    }

    /// The policy lets an origin in.
    pub open spec fn allows(self, origin: Seq<char>) -> bool {
        let o = normal(text::trimmed(origin));
        ||| self.allow_any
        ||| o.len() > 0 && o != "null"@ && (text::views(self.exact@).contains(o) || (
        self.allow_loopback && loopback_origin(o)))
    }

    /// Whether `origin` (a browser `Origin` header value) is allowed.
    pub fn is_allowed(&self, origin: &str) -> (r: bool)
        ensures
            r == self.allows(origin@),
    {
        if self.allow_any {
            return true;
        }
        let chars: Vec<char> = text::to_chars(origin);
        let o: String = text::from_chars(&text::lower_chars(trim_slashes(text::trim(&chars))));
        if o.as_str().is_empty() || text::same_text(o.as_str(), "null") {
            return false;
        }
        if text::listed(&self.exact, o.as_str()) {
            return true;
        }
        self.allow_loopback && is_loopback_origin(o.as_str())
    }
}

/// An origin that identifies nothing is not let in unless everything is.
pub proof fn law_null_is_never_allowed(p: AllowedOrigins)
    requires
        !p.allow_any,
    ensures
        !p.allows("null"@),
        !p.allows(Seq::empty()),
{
    reveal_strlit("null");
    let n = "null"@;
    assert(n[0] == 'n' && n[3] == 'l');
    assert(text::trimmed_start(n) == n);
    assert(text::trimmed_end(n) == n);
    assert(unslashed(n) == n);
    assert(text::lowered(n) =~= n);
}

/// A configured list never takes loopback away.
pub proof fn law_loopback_survives_a_configured_list(
    p: AllowedOrigins,
    spec_text: Seq<char>,
    source: Seq<char>,
    origin: Seq<char>,
)
    requires
        p.is_from(spec_text, source),
        loopback_origin(normal(text::trimmed(origin))),
    ensures
        p.allows(origin),
{
    let o = normal(text::trimmed(origin));
    reveal_strlit("null");
    reveal_strlit("http://localhost");
    reveal_strlit("http://127.0.0.1");
    reveal_strlit("http://[::1]");
    reveal_strlit("https://localhost");
    reveal_strlit("https://127.0.0.1");
    reveal_strlit("https://[::1]");
}

/// A site is itself, with a port or without: nothing else may follow its name.
pub proof fn law_a_site_may_have_a_port_and_nothing_else(site: Seq<char>, rest: Seq<char>)
    ensures
        at_site(site + rest, site) <==> rest.len() == 0 || (rest.len() > 1 && rest[0] == ':'
            && forall|i: int| 1 <= i < rest.len() ==> '0' <= #[trigger] rest[i] <= '9'),
{
    let o = site + rest;
    assert(o.take(site.len() as int) =~= site);
    assert(o.skip(site.len() as int) =~= rest);
    let d = rest.skip(1);
    if rest.len() > 1 {
        if text::all_digits(d) {
            assert forall|i: int| 1 <= i < rest.len() implies '0' <= #[trigger] rest[i] <= '9' by {
                assert(text::is_digit(d[i - 1]));
            }
        }
        if forall|i: int| 1 <= i < rest.len() ==> '0' <= #[trigger] rest[i] <= '9' {
            assert forall|i: int| 0 <= i < d.len() implies text::is_digit(#[trigger] d[i]) by {
                assert(d[i] == rest[i + 1]);
            }
        }
    }
}

/// An origin is let in where everything is, where it is one of those listed, or
/// where it is this machine and that is let in; letters may be of either case,
/// and blanks around and slashes behind it do not count. An empty origin and
/// "null" are let in only where everything is.
pub proof fn law_only_listed_and_local_origins_are_let_in(p: AllowedOrigins, origin: Seq<char>)
    ensures
        ({
            let o = text::lowered(unslashed(text::trimmed(origin)));
            p.allows(origin) <==> p.allow_any || (o.len() > 0 && o != "null"@ && ((exists|i: int|
                0 <= i < p.exact@.len() && (#[trigger] p.exact@[i])@ == o) || (p.allow_loopback && (
            at_site(o, "http://localhost"@) || at_site(o, "http://127.0.0.1"@) || at_site(
                o,
                "http://[::1]"@,
            ) || at_site(o, "https://localhost"@) || at_site(o, "https://127.0.0.1"@) || at_site(
                o,
                "https://[::1]"@,
            )))))
        }),
{
    let o = text::lowered(unslashed(text::trimmed(origin)));
    let v = text::views(p.exact@);
    if v.contains(o) {
        let i = choose|i: int| 0 <= i < v.len() && v[i] == o;
        assert(p.exact@[i]@ == o);
    }
    if exists|i: int| 0 <= i < p.exact@.len() && (#[trigger] p.exact@[i])@ == o {
        let i = choose|i: int| 0 <= i < p.exact@.len() && (#[trigger] p.exact@[i])@ == o;
        assert(v[i] == o);
    }
}

/// An origin that is listed is let in, and a star lets in everything.
pub proof fn law_a_listed_origin_is_let_in(
    p: AllowedOrigins,
    list: Seq<char>,
    source: Seq<char>,
    i: int,
)
    requires
        p.is_from(list, source),
        0 <= i < text::pieces(list, ',').len(),
        ({
            let e = text::trimmed(text::pieces(list, ',')[i]);
            e.len() > 0 && normal(e).len() > 0 && normal(e) != "null"@
        }),
    ensures
        p.allows(text::pieces(list, ',')[i]),
        text::trimmed(text::pieces(list, ',')[i]) == "*"@ ==> p.allow_any,
        p.allow_any ==> exists|k: int|
            0 <= k < text::pieces(list, ',').len() && text::trimmed(
                #[trigger] text::pieces(list, ',')[k],
            ) == "*"@,
{
    let entries = text::pieces(list, ',');
    let e = text::trimmed(entries[i]);
    if e != "*"@ {
        lemma_named_holds(entries, i);
    } else {
        assert(has_star(entries));
    }
}

proof fn lemma_named_holds(entries: Seq<Seq<char>>, i: int)
    requires
        0 <= i < entries.len(),
        text::trimmed(entries[i]).len() > 0,
        text::trimmed(entries[i]) != "*"@,
    ensures
        named(entries).contains(normal(text::trimmed(entries[i]))),
    decreases entries.len(),
{
    let w = normal(text::trimmed(entries[i]));
    if i == entries.len() - 1 {
        assert(named(entries).last() == w);
    } else {
        let less = entries.drop_last();
        lemma_named_holds(less, i);
        assert(less[i] == entries[i]);
        let k = choose|k: int| 0 <= k < named(less).len() && named(less)[k] == w;
        assert(named(entries)[k] == w);
    }
}

/// What does not count of an origin: slashes behind it.
pub proof fn law_slashes_behind_do_not_count(s: Seq<char>)
    ensures
        unslashed(s.push('/')) == unslashed(s),
        s.len() > 0 && s.last() != '/' ==> unslashed(s) == s,
{
    assert(s.push('/').drop_last() =~= s);
}

} // verus!
