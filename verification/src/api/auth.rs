//! API keys: configuration, authentication and per-key quotas.
//!
//! Keys are given as `id:secret[:rpm=N]`, separated by commas or one per line.
//! Configuration that is present but does not parse is an error, never an open
//! service.
use crate::api::env_file;
use crate::text;
use sha2::Digest;
use vstd::prelude::*;
use vstd::slice::slice_subrange;
use vstd::utf8::encode_utf8;

verus! {

/// Minimum secret length, in characters.
pub const MIN_SECRET_LEN: usize = 16;

/// Longest accepted key id, in bytes.
pub const MAX_ID_LEN: usize = 64;

/// A minute, in nanoseconds.
pub const WINDOW: u64 = 60_000_000_000;

/// What SHA-256 makes of bytes.
pub uninterp spec fn sha256(b: Seq<u8>) -> Seq<u8>;

/// `sha2::Sha256::digest`: the SHA-256 digest of bytes, which is 32 bytes long.
#[verifier::external_body]
fn digest(b: &[u8]) -> (r: [u8; 32])
    ensures
        r@ == sha256(b@),
{
    sha2::Sha256::digest(b).into()
}

/// The digest of a text's bytes.
pub open spec fn text_digest(s: Seq<char>) -> Seq<u8> {
    sha256(encode_utf8(s))
}

/// One configured key. The secret is kept only as a digest.
#[derive(Clone)]
pub struct KeyEntry {
    pub id: String,
    pub secret_sha256: [u8; 32],
    /// Requests per minute allowed for this key; 0 = unlimited.
    pub rpm: u32,
}

/// The fields of a key entry as configured.
#[derive(Clone)]
pub struct KeyFields {
    pub id: String,
    pub secret: String,
    pub rpm: u32,
}

/// A key entry as configured.
#[verifier::ext_equal]
pub ghost struct Fields {
    pub id: Seq<char>,
    pub secret: Seq<char>,
    pub rpm: nat,
}

impl KeyFields {
    pub open spec fn fields(self) -> Fields {
        Fields { id: self.id@, secret: self.secret@, rpm: self.rpm as nat }
    }
}

impl KeyEntry {
    /// The entry holds what was configured, the secret as its digest.
    pub open spec fn holds(self, f: Fields) -> bool {
        &&& self.id@ == f.id
        &&& self.secret_sha256@ == text_digest(f.secret)
        &&& self.rpm == f.rpm
    }
}

/// A character that may stand in a key id.
pub open spec fn id_char(c: char) -> bool {
    ||| 'a' <= c <= 'z'
    ||| 'A' <= c <= 'Z'
    ||| '0' <= c <= '9'
    ||| c == '-'
    ||| c == '_'
    ||| c == '.'
}

/// The quota that the options of a key set, the last one counting, or the message
/// about the first that is not one. Blank options are ignored.
pub open spec fn quota(id: Seq<char>, options: Seq<Seq<char>>) -> Result<nat, Seq<char>>
    decreases options.len(),
{
    if options.len() == 0 {
        Ok(0nat)
    } else {
        match quota(id, options.drop_last()) {
            Err(e) => Err(e),
            Ok(n) => {
                let o = text::trimmed(options.last());
                if o.len() == 0 {
                    Ok(n)
                } else if !text::is_prefix("rpm="@, o) {
                    Err(
                        "unrecognised option '"@ + o + "' on key '"@ + id
                            + "' (only rpm=N is supported; note a secret may not contain ':')"@,
                    )
                } else {
                    match text::unsigned_value(o.skip("rpm="@.len() as int), u32::MAX as nat) {
                        Some(v) => Ok(v),
                        None => Err("rpm on key '"@ + id + "' is not a number"@),
                    }
                }
            },
        }
    }
}

/// The key that an entry configures, or what is wrong with it.
pub open spec fn key_entry(entry: Seq<char>) -> Result<Fields, Seq<char>> {
    let parts = text::pieces(entry, ':');
    let id = text::trimmed(parts[0]);
    let secret = if parts.len() > 1 {
        text::trimmed(parts[1])
    } else {
        Seq::empty()
    };
    if id.len() == 0 || secret.len() == 0 {
        Err("expected id:secret[:rpm=N]"@)
    } else if encode_utf8(id).len() > MAX_ID_LEN {
        Err("key id is longer than 64 characters"@)
    } else if exists|i: int| 0 <= i < id.len() && !id_char(#[trigger] id[i]) {
        Err("key id '"@ + id + "' may contain only letters, digits, '-', '_' and '.'"@)
    } else if secret.len() < MIN_SECRET_LEN {
        Err("the secret for key '"@ + id + "' is shorter than 16 characters"@)
    } else {
        match quota(id, parts.skip(2)) {
            Ok(rpm) => Ok(Fields { id, secret, rpm }),
            Err(e) => Err(e),
        }
    }
}

/// The entry says nothing: it is blank or a comment.
pub open spec fn is_comment(raw: Seq<char>) -> bool {
    let e = text::trimmed(raw);
    e.len() == 0 || e[0] == '#'
}

/// One of the keys has this id.
pub open spec fn has_id(keys: Seq<Fields>, id: Seq<char>) -> bool {
    exists|i: int| 0 <= i < keys.len() && (#[trigger] keys[i]).id == id
}

/// The keys that some raw entries configure, in order, or the first error.
pub open spec fn keys_in(raw: Seq<Seq<char>>) -> Result<Seq<Fields>, Seq<char>>
    decreases raw.len(),
{
    if raw.len() == 0 {
        Ok(Seq::empty())
    } else {
        match keys_in(raw.drop_last()) {
            Err(e) => Err(e),
            Ok(keys) => if is_comment(raw.last()) {
                Ok(keys)
            } else {
                match key_entry(text::trimmed(raw.last())) {
                    Err(e) => Err(e),
                    Ok(k) => if has_id(keys, k.id) {
                        Err("duplicate key id '"@ + k.id + "'"@)
                    } else {
                        Ok(keys.push(k))
                    },
                }
            },
        }
    }
}

/// The keys that a configuration sets: at least one.
pub open spec fn configured(spec_text: Seq<char>, sep: char) -> Result<Seq<Fields>, Seq<char>> {
    match keys_in(text::pieces(spec_text, sep)) {
        Err(e) => Err(e),
        Ok(keys) => if keys.len() == 0 {
            Err("no key entries found (expected id:secret[:rpm=N])"@)
        } else {
            Ok(keys)
        },
    }
}

/// The secret that an entry configures; empty where there is none.
pub open spec fn secret_in(entry: Seq<char>) -> Seq<char> {
    let parts = text::pieces(entry, ':');
    if parts.len() > 1 {
        text::trimmed(parts[1])
    } else {
        Seq::empty()
    }
}

/// The entries differ in their secrets at most, and both secrets are missing,
/// too short, or long enough.
pub open spec fn alike_but_for_secrets(a: Seq<char>, b: Seq<char>) -> bool {
    let (p, q) = (text::pieces(a, ':'), text::pieces(b, ':'));
    &&& p.len() == q.len()
    &&& forall|i: int| 0 <= i < p.len() && i != 1 ==> #[trigger] p[i] == q[i]
    &&& (secret_in(a).len() == 0) == (secret_in(b).len() == 0)
    &&& (secret_in(a).len() < MIN_SECRET_LEN) == (secret_in(b).len() < MIN_SECRET_LEN)
}

/// Raw entries that are alike: both are comments, or neither is and they differ
/// in their secrets at most.
pub open spec fn raw_alike(a: Seq<char>, b: Seq<char>) -> bool {
    &&& is_comment(a) == is_comment(b)
    &&& !is_comment(a) ==> alike_but_for_secrets(text::trimmed(a), text::trimmed(b))
}

/// Errors never echo the secret: entries that differ only in their secrets give
/// the same error, or are both in order with the same id and quota.
pub proof fn law_errors_do_not_tell_the_secret(a: Seq<char>, b: Seq<char>)
    requires
        alike_but_for_secrets(a, b),
    ensures
        match key_entry(a) {
            Err(e) => key_entry(b) == Err::<Fields, Seq<char>>(e),
            Ok(f) => key_entry(b) matches Ok(g) && g.id == f.id && g.rpm == f.rpm,
        },
{
    let (p, q) = (text::pieces(a, ':'), text::pieces(b, ':'));
    assert(p.len() > 0);
    assert(p[0] == q[0]);
    if p.len() >= 2 {
        assert(p.skip(2) =~= q.skip(2));
    }
}

proof fn lemma_keys_alike(a: Seq<Seq<char>>, b: Seq<Seq<char>>)
    requires
        a.len() == b.len(),
        forall|i: int| 0 <= i < a.len() ==> raw_alike(#[trigger] a[i], b[i]),
    ensures
        match keys_in(a) {
            Err(e) => keys_in(b) == Err::<Seq<Fields>, Seq<char>>(e),
            Ok(k) => keys_in(b) matches Ok(l) && k.len() == l.len() && forall|i: int|
                0 <= i < k.len() ==> (#[trigger] k[i]).id == l[i].id,
        },
    decreases a.len(),
{
    if a.len() > 0 {
        let (x, y) = (a.drop_last(), b.drop_last());
        assert forall|i: int| 0 <= i < x.len() implies raw_alike(#[trigger] x[i], y[i]) by {
            assert(x[i] == a[i] && y[i] == b[i]);
        }
        lemma_keys_alike(x, y);
        assert(raw_alike(a[a.len() - 1], b[a.len() - 1]));
        if !is_comment(a.last()) {
            law_errors_do_not_tell_the_secret(text::trimmed(a.last()), text::trimmed(b.last()));
        }
        if let Ok(k) = keys_in(x) {
            let l = keys_in(y)->Ok_0;
            assert forall|id: Seq<char>| has_id(k, id) == has_id(l, id) by {
                if has_id(k, id) {
                    let i = choose|i: int| 0 <= i < k.len() && (#[trigger] k[i]).id == id;
                    assert(l[i].id == id);
                }
                if has_id(l, id) {
                    let i = choose|i: int| 0 <= i < l.len() && (#[trigger] l[i]).id == id;
                    assert(k[i].id == id);
                }
            }
        }
    }
}

/// The same of a whole configuration: whichever secrets stand in it, what is
/// wrong with it is said in the same words.
pub proof fn law_configuration_errors_do_not_tell_secrets(a: Seq<char>, b: Seq<char>, sep: char)
    requires
        text::pieces(a, sep).len() == text::pieces(b, sep).len(),
        forall|i: int|
            0 <= i < text::pieces(a, sep).len() ==> raw_alike(
                #[trigger] text::pieces(a, sep)[i],
                text::pieces(b, sep)[i],
            ),
    ensures
        match configured(a, sep) {
            Err(e) => configured(b, sep) == Err::<Seq<Fields>, Seq<char>>(e),
            Ok(_) => configured(b, sep) is Ok,
        },
{
    lemma_keys_alike(text::pieces(a, sep), text::pieces(b, sep));
}

/// An error stands, whatever follows.
proof fn lemma_quota_error(id: Seq<char>, options: Seq<Seq<char>>, k: int)
    requires
        0 <= k <= options.len(),
        quota(id, options.take(k)) is Err,
    ensures
        quota(id, options) == quota(id, options.take(k)),
    decreases options.len(),
{
    if k < options.len() {
        assert(options.drop_last().take(k) =~= options.take(k));
        lemma_quota_error(id, options.drop_last(), k);
    } else {
        assert(options.take(k) =~= options);
    }
}

/// An error stands, whatever follows.
proof fn lemma_keys_error(raw: Seq<Seq<char>>, k: int)
    requires
        0 <= k <= raw.len(),
        keys_in(raw.take(k)) is Err,
    ensures
        keys_in(raw) == keys_in(raw.take(k)),
    decreases raw.len(),
{
    if k < raw.len() {
        assert(raw.drop_last().take(k) =~= raw.take(k));
        lemma_keys_error(raw.drop_last(), k);
    } else {
        assert(raw.take(k) =~= raw);
    }
}

fn read_quota(id: &[char], parts: &Vec<Vec<char>>) -> (r: Result<u32, String>)
    requires
        parts@.len() >= 2,
    ensures
        match quota(id@, text::rows(parts@).skip(2)) {
            Ok(n) => r matches Ok(m) && m == n,
            Err(e) => r matches Err(m) && m@ == e,
        },
{
    let ghost all = text::rows(parts@).skip(2);
    let prefix: Vec<char> = text::to_chars("rpm=");
    let mut rpm: u32 = 0;
    let mut i: usize = 2;
    assert(all.take(0) =~= Seq::empty());
    while i < parts.len()
        invariant
            2 <= i <= parts@.len(),
            all == text::rows(parts@).skip(2),
            prefix@ == "rpm="@,
            quota(id@, all.take(i - 2)) == Ok::<nat, Seq<char>>(rpm as nat),
            all.len() == parts@.len() - 2,
        decreases parts.len() - i,
    {
        let o: &[char] = text::trim(&parts[i]);
        proof {
            assert(all.take(i - 1).drop_last() =~= all.take(i - 2));
            assert(all.take(i - 1).last() == parts@[i as int]@);
            if quota(id@, all.take(i - 1)) is Err {
                lemma_quota_error(id@, all, i - 1);
            }
        }
        if o.len() > 0 {
            if !text::starts_with(o, &prefix) {
                let mut m: String = text::copy_text("unrecognised option '");
                m.append(text::from_chars(o).as_str());
                m.append("' on key '");
                m.append(text::from_chars(id).as_str());
                m.append(
                    "' (only rpm=N is supported; note a secret may not contain ':')",
                );
                return Err(m);
            }
            let value: &[char] = slice_subrange(o, prefix.len(), o.len());
            assert(value@ =~= o@.skip("rpm="@.len() as int));
            match text::parse_unsigned(value, 0xFFFF_FFFF) {
                Some(n) => {
                    rpm = n as u32;
                },
                None => {
                    let mut m: String = text::copy_text("rpm on key '");
                    m.append(text::from_chars(id).as_str());
                    m.append("' is not a number");
                    return Err(m);
                },
            }
        }
        i = i + 1;
    }
    assert(all.take(i - 2) =~= all);
    Ok(rpm)
}

/// Parse one `id:secret[:rpm=N]` entry into its fields.
///
/// Errors never echo the secret.
pub fn parse_fields(entry: &str) -> (r: Result<KeyFields, String>)
    ensures
        match key_entry(entry@) {
            Ok(f) => r matches Ok(k) && k.fields() == f,
            Err(e) => r matches Err(m) && m@ == e,
        },
{
    let chars: Vec<char> = text::to_chars(entry);
    let parts: Vec<Vec<char>> = text::split(&chars, ':');
    let ghost all = text::pieces(entry@, ':');
    assert(all[0] == parts@[0]@);
    let id: &[char] = text::trim(&parts[0]);
    if parts.len() < 2 {
        return Err(text::copy_text("expected id:secret[:rpm=N]"));
    }
    assert(all[1] == parts@[1]@);
    let secret: &[char] = text::trim(&parts[1]);
    if id.len() == 0 || secret.len() == 0 {
        return Err(text::copy_text("expected id:secret[:rpm=N]"));
    }
    let id_text: String = text::from_chars(id);
    if id_text.as_str().as_bytes().len() > MAX_ID_LEN {
        return Err(text::copy_text("key id is longer than 64 characters"));
    }
    let mut i: usize = 0;
    while i < id.len()
        invariant
            i <= id@.len(),
            id_text@ == id@,
            id@ == text::trimmed(all[0]),
            id@.len() > 0,
            encode_utf8(id@).len() <= MAX_ID_LEN,
            secret@ == text::trimmed(all[1]),
            secret@.len() > 0,
            all == text::pieces(entry@, ':'),
            all.len() >= 2,
            forall|j: int| 0 <= j < i ==> id_char(#[trigger] id@[j]),
        decreases id.len() - i,
    {
        let c: char = id[i];
        let ok: bool = ('a' <= c && c <= 'z') || ('A' <= c && c <= 'Z') || ('0' <= c && c <= '9')
            || c == '-' || c == '_' || c == '.';
        if !ok {
            assert(!id_char(id@[i as int]));
            let mut m: String = text::copy_text("key id '");
            m.append(id_text.as_str());
            m.append("' may contain only letters, digits, '-', '_' and '.'");
            return Err(m);
        }
        i = i + 1;
    }
    if secret.len() < MIN_SECRET_LEN {
        let mut m: String = text::copy_text("the secret for key '");
        m.append(id_text.as_str());
        m.append("' is shorter than 16 characters");
        return Err(m);
    }
    match read_quota(id, &parts) {
        Ok(rpm) => Ok(KeyFields { id: id_text, secret: text::from_chars(secret), rpm }),
        Err(m) => Err(m),
    }
}

/// Parse one `id:secret[:rpm=N]` entry.
pub fn parse_entry(entry: &str) -> (r: Result<KeyEntry, String>)
    ensures
        match key_entry(entry@) {
            Ok(f) => r matches Ok(k) && k.holds(f),
            Err(e) => r matches Err(m) && m@ == e,
        },
{
    match parse_fields(entry) {
        Ok(f) => {
            let secret_sha256: [u8; 32] = digest(f.secret.as_str().as_bytes());
            Ok(KeyEntry { id: f.id, secret_sha256, rpm: f.rpm })
        },
        Err(m) => Err(m),
    }
}

/// The entries hold what was configured, one for one.
pub open spec fn all_hold(keys: Seq<KeyEntry>, fields: Seq<Fields>) -> bool {
    keys.len() == fields.len() && forall|i: int|
        0 <= i < keys.len() ==> (#[trigger] keys[i]).holds(fields[i])
}

/// Parse entries separated by `sep`, ignoring blank lines and `#` comments.
pub fn parse_entries(spec_text: &str, sep: char) -> (r: Result<Vec<KeyEntry>, String>)
    ensures
        match configured(spec_text@, sep) {
            Ok(f) => r matches Ok(keys) && all_hold(keys@, f) && keys@.len() > 0,
            Err(e) => r matches Err(m) && m@ == e,
        },
{
    let chars: Vec<char> = text::to_chars(spec_text);
    let raw: Vec<Vec<char>> = text::split(&chars, sep);
    let ghost all = text::rows(raw@);
    let mut keys: Vec<KeyEntry> = Vec::new();
    let ghost mut fields: Seq<Fields> = Seq::empty();
    let mut i: usize = 0;
    assert(all.take(0) =~= Seq::empty());
    while i < raw.len()
        invariant
            i <= raw@.len(),
            all == text::rows(raw@),
            all == text::pieces(spec_text@, sep),
            keys_in(all.take(i as int)) == Ok::<Seq<Fields>, Seq<char>>(fields),
            all_hold(keys@, fields),
        decreases raw.len() - i,
    {
        proof {
            assert(all.take(i + 1).drop_last() =~= all.take(i as int));
            assert(all.take(i + 1).last() == raw@[i as int]@);
            if keys_in(all.take(i + 1)) is Err {
                lemma_keys_error(all, i + 1);
            }
        }
        let entry: &[char] = text::trim(&raw[i]);
        if entry.len() > 0 && entry[0] != '#' {
            let key: KeyEntry = match parse_entry(text::from_chars(entry).as_str()) {
                Ok(k) => k,
                Err(m) => {
                    return Err(m);
                },
            };
            let ghost f = key_entry(entry@)->Ok_0;
            let mut j: usize = 0;
            while j < keys.len()
                invariant
                    j <= keys@.len(),
                    i < raw@.len(),
                    all == text::pieces(spec_text@, sep),
                    all.len() == raw@.len(),
                    all_hold(keys@, fields),
                    key.holds(f),
                    keys_in(all.take(i + 1)) == (if has_id(fields, f.id) {
                        Err::<Seq<Fields>, Seq<char>>("duplicate key id '"@ + f.id + "'"@)
                    } else {
                        Ok(fields.push(f))
                    }),
                    keys_in(all.take(i + 1)) is Err ==> keys_in(all) == keys_in(all.take(i + 1)),
                    forall|k: int| 0 <= k < j ==> (#[trigger] fields[k]).id != f.id,
                decreases keys.len() - j,
            {
                assert(keys@[j as int].holds(fields[j as int]));
                if text::same_text(keys[j].id.as_str(), key.id.as_str()) {
                    assert(has_id(fields, f.id));
                    let mut m: String = text::copy_text("duplicate key id '");
                    m.append(key.id.as_str());
                    m.append("'");
                    return Err(m);
                }
                j = j + 1;
            }
            assert(!has_id(fields, f.id));
            proof {
                fields = fields.push(f);
            }
            keys.push(key);
        }
        i = i + 1;
    }
    assert(all.take(i as int) =~= all);
    if keys.len() == 0 {
        return Err(text::copy_text("no key entries found (expected id:secret[:rpm=N])"));
    }
    Ok(keys)
}

/// Byte comparison over all of both digests, whatever they hold: the differences
/// are gathered and looked at once.
pub fn constant_time_eq(a: &[u8; 32], b: &[u8; 32]) -> (r: bool)
    ensures
        r == (a@ == b@),
{
    let mut diff: u8 = 0;
    let mut i: usize = 0;
    while i < 32
        invariant
            i <= 32,
            diff == 0 <==> forall|j: int| 0 <= j < i ==> a@[j] == b@[j],
        decreases 32 - i,
    {
        let x: u8 = a[i];
        let y: u8 = b[i];
        let d: u8 = x ^ y;
        let ghost before = diff;
        assert(d == 0 <==> x == y) by (bit_vector)
            requires
                d == x ^ y,
        ;
        diff = diff | d;
        assert(diff == 0 <==> before == 0 && d == 0) by (bit_vector)
            requires
                diff == before | d,
        ;
        i = i + 1;
    }
    assert(diff == 0 <==> a@ =~= b@);
    diff == 0
}

/// Who is making the request.
#[derive(Debug, Clone, Default, PartialEq, Eq)]
pub struct Identity {
    /// The configured key id, or `None` when authentication is disabled.
    pub key_id: Option<String>,
}

impl Identity {
    /// Identity of a request that arrived while authentication was disabled.
    pub fn anonymous() -> (r: Self)
        ensures
            r.key_id is None,
    {
        Identity { key_id: None }
    }

    /// The key id, for the audit trail's `user_id` and for log lines.
    pub fn key_id(&self) -> (r: Option<&str>)
        ensures
            match self.key_id {
                Some(id) => r matches Some(t) && t@ == id@,
                None => r is None,
            },
    {
        match &self.key_id {
            Some(id) => Some(id.as_str()),
            None => None,
        }
    }

    /// Whether this request presented a valid key.
    pub fn is_authenticated(&self) -> (r: bool)
        ensures
            r == self.key_id is Some,
    {
        self.key_id.is_some()
    }
}

/// Why a request was refused.
#[derive(Debug, PartialEq, Eq)]
pub enum AuthError {
    /// No token presented at all.
    Missing,
    /// A token was presented but matches no configured key.
    Invalid,
    /// Valid key, but over its per-minute quota. Carries the seconds until the
    /// current window rolls over, for `Retry-After`.
    RateLimited { key_id: String, retry_after_s: u64 },
}

/// A fixed one-minute counting window of one key.
#[derive(Debug)]
pub struct KeyWindow {
    pub key_id: String,
    /// Reading, in nanoseconds, of a monotonic clock.
    pub started: u64,
    pub count: u32,
}

/// The configured key set plus its rate-limit state.
pub struct ApiKeys {
    pub keys: Vec<KeyEntry>,
    /// Human-readable origin of the configuration, for the startup log.
    pub source: String,
    /// Fixed-window request counters, one for each key id that has been charged.
    pub windows: Vec<KeyWindow>,
}

/// When the current window of a key started, and how many requests it counts.
#[verifier::ext_equal]
pub ghost struct Count {
    pub started: int,
    pub count: int,
}

/// The window of a key id, if it has one.
pub open spec fn window_of(windows: Seq<KeyWindow>, id: Seq<char>) -> Option<Count>
    decreases windows.len(),
{
    if windows.len() == 0 {
        None
    } else if windows.last().key_id@ == id {
        Some(
            Count {
                started: windows.last().started as int,
                count: windows.last().count as int,
            },
        )
    } else {
        window_of(windows.drop_last(), id)
    }
}

/// No key id has two windows.
pub open spec fn one_each(windows: Seq<KeyWindow>) -> bool {
    forall|i: int, j: int|
        0 <= i < j < windows.len() ==> (#[trigger] windows[i]).key_id@ != (
        #[trigger] windows[j]).key_id@
}

/// The window a request at `now` falls into: the current one, or a new one when
/// there is none or a minute has passed.
pub open spec fn current(w: Option<Count>, now: int) -> Count {
    match w {
        Some(c) => if now - c.started >= WINDOW {
            Count { started: now, count: 0 }
        } else {
            c
        },
        None => Count { started: now, count: 0 },
    }
}

/// What a request at `now` leaves of the window: one more is counted unless the
/// quota is used up.
pub open spec fn counted(w: Option<Count>, rpm: int, now: int) -> Count {
    let c = current(w, now);
    if c.count >= rpm {
        c
    } else {
        Count { count: c.count + 1, ..c }
    }
}

/// How long, in seconds, a request at `now` is to wait, where the quota is used
/// up: until the window rolls over, rounded down, and at least a second.
pub open spec fn wait(w: Option<Count>, rpm: int, now: int) -> Option<int> {
    let c = current(w, now);
    if c.count >= rpm {
        let elapsed = if now > c.started {
            now - c.started
        } else {
            0
        };
        let left = (WINDOW - elapsed) / 1_000_000_000;
        Some(
            if left > 1 {
                left
            } else {
                1
            },
        )
    } else {
        None
    }
}

proof fn lemma_window_at(windows: Seq<KeyWindow>, i: int)
    requires
        one_each(windows),
        0 <= i < windows.len(),
    ensures
        window_of(windows, windows[i].key_id@) == Some(
            Count { started: windows[i].started as int, count: windows[i].count as int },
        ),
    decreases windows.len(),
{
    if i < windows.len() - 1 {
        lemma_window_at(windows.drop_last(), i);
        assert(windows.drop_last()[i] == windows[i]);
    }
}

proof fn lemma_window_none(windows: Seq<KeyWindow>, id: Seq<char>)
    requires
        forall|i: int| 0 <= i < windows.len() ==> (#[trigger] windows[i]).key_id@ != id,
    ensures
        window_of(windows, id) is None,
    decreases windows.len(),
{
    if windows.len() > 0 {
        lemma_window_none(windows.drop_last(), id);
    }
}

proof fn lemma_window_update(windows: Seq<KeyWindow>, i: int, w: KeyWindow, other: Seq<char>)
    requires
        0 <= i < windows.len(),
        w.key_id@ == windows[i].key_id@,
        other != w.key_id@,
    ensures
        window_of(windows.update(i, w), other) == window_of(windows, other),
    decreases windows.len(),
{
    let u = windows.update(i, w);
    if i == windows.len() - 1 {
        assert(u.drop_last() =~= windows.drop_last());
    } else {
        assert(u.drop_last() =~= windows.drop_last().update(i, w));
        lemma_window_update(windows.drop_last(), i, w, other);
    }
}

impl ApiKeys {
    /// The rate-limit state is in order.
    pub open spec fn wf(self) -> bool {
        one_each(self.windows@)
    }

    /// The window of a key id, if it has one.
    pub open spec fn window(self, id: Seq<char>) -> Option<Count> {
        window_of(self.windows@, id)
    }

    /// Key set and source are as they were, and so is every window but that of
    /// `id`.
    pub open spec fn only_charged(self, before: ApiKeys, id: Seq<char>) -> bool {
        &&& self.keys == before.keys
        &&& self.source == before.source
        &&& forall|other: Seq<char>|
            other != id ==> #[trigger] self.window(other) == before.window(other)
    }

    /// [`ApiKeys::charge`] whatever the quota, zero included.
    pub fn charge_at(&mut self, key_id: &str, rpm: u32, now: u64) -> (r: Option<u64>)
        requires
            old(self).wf(),
        ensures
            final(self).wf(),
            final(self).only_charged(*old(self), key_id@),
            final(self).window(key_id@) == Some(
                counted(old(self).window(key_id@), rpm as int, now as int),
            ),
            match r {
                Some(s) => wait(old(self).window(key_id@), rpm as int, now as int) == Some(
                    s as int,
                ),
                None => wait(old(self).window(key_id@), rpm as int, now as int) is None,
            },
    {
        let ghost before = *self;
        let ghost id = key_id@;
        let mut i: usize = 0;
        while i < self.windows.len() && !text::same_text(self.windows[i].key_id.as_str(), key_id)
            invariant
                *self == before,
                i <= self.windows@.len(),
                forall|j: int| 0 <= j < i ==> (#[trigger] self.windows@[j]).key_id@ != key_id@,
            decreases self.windows.len() - i,
        {
            i = i + 1;
        }
        let known: bool = i < self.windows.len();
        if !known {
            proof {
                lemma_window_none(self.windows@, id);
            }
            self.windows.push(
                KeyWindow { key_id: text::copy_text(key_id), started: now, count: 0 },
            );
            assert(self.windows@.drop_last() =~= before.windows@);
        }
        let ghost middle = self.windows@;
        proof {
            lemma_window_at(middle, i as int);
            if known {
                lemma_window_at(before.windows@, i as int);
            }
            assert forall|other: Seq<char>| other != id implies #[trigger] window_of(
                middle,
                other,
            ) == window_of(before.windows@, other) by {}
        }
        let mut started: u64 = self.windows[i].started;
        let mut count: u32 = self.windows[i].count;
        let elapsed: u64 = if now > started {
            now - started
        } else {
            0
        };
        if elapsed >= WINDOW {
            started = now;
            count = 0;
        }
        let r: Option<u64> = if count >= rpm {
            let elapsed: u64 = if now > started {
                now - started
            } else {
                0
            };
            let left: u64 = (WINDOW - elapsed) / 1_000_000_000;
            if left > 1 {
                Some(left)
            } else {
                Some(1)
            }
        } else {
            count = count + 1;
            None
        };
        let w: KeyWindow = KeyWindow { key_id: text::copy_text(key_id), started, count };
        let ghost wv = w;
        self.windows.set(i, w);
        proof {
            assert(self.windows@ =~= middle.update(i as int, wv));
            assert(one_each(self.windows@));
            lemma_window_at(self.windows@, i as int);
            assert forall|other: Seq<char>| other != id implies #[trigger] self.window(other)
                == before.window(other) by {
                lemma_window_update(middle, i as int, wv, other);
                assert(window_of(middle, other) == window_of(before.windows@, other));
            }
        }
        r
    }

    /// Charge one request against `key_id`'s window. Returns `Some(seconds)`
    /// when the quota is exhausted, where `seconds` is the wait until the
    /// window rolls over. A quota of zero is none: nothing is counted.
    pub fn charge(&mut self, key_id: &str, rpm: u32, now: u64) -> (r: Option<u64>)
        requires
            old(self).wf(),
        ensures
            final(self).wf(),
            rpm == 0 ==> r is None && *final(self) == *old(self),
            rpm > 0 ==> {
                &&& final(self).only_charged(*old(self), key_id@)
                &&& final(self).window(key_id@) == Some(
                    counted(old(self).window(key_id@), rpm as int, now as int),
                )
                &&& match r {
                    Some(s) => wait(old(self).window(key_id@), rpm as int, now as int) == Some(
                        s as int,
                    ),
                    None => wait(old(self).window(key_id@), rpm as int, now as int) is None,
                }
            },
    {
        if rpm == 0 {
            return None;
        }
        self.charge_at(key_id, rpm, now)
    }
}

/// A quota holds: the requests counted in a window never exceed it.
pub proof fn law_a_window_never_counts_more_than_the_quota(w: Option<Count>, rpm: int, now: int)
    requires
        rpm >= 0,
        w matches Some(c) ==> 0 <= c.count <= rpm,
    ensures
        0 <= counted(w, rpm, now).count <= rpm,
        wait(w, rpm, now) is None ==> counted(w, rpm, now).count == current(w, now).count + 1,
        wait(w, rpm, now) is Some ==> counted(w, rpm, now).count == rpm,
{
}

/// A minute after a window started the key is admitted again.
pub proof fn law_a_window_rolls_over_after_a_minute(w: Option<Count>, rpm: int, now: int)
    requires
        rpm > 0,
        w matches Some(c) ==> now >= c.started + WINDOW,
    ensures
        wait(w, rpm, now) is None,
{
}

/// A refused request is told to wait between one second and a minute.
pub proof fn law_the_wait_is_within_a_minute(w: Option<Count>, rpm: int, now: int)
    requires
        rpm > 0,
    ensures
        wait(w, rpm, now) matches Some(s) ==> 1 <= s <= 60,
{
}

/// What a configuration source brings: keys and where they came from, nothing,
/// or an error.
#[verifier::ext_equal]
pub ghost enum Resolved {
    Keys { fields: Seq<Fields>, source: Seq<char> },
    Disabled,
    Error { message: Seq<char> },
}

/// The keys that a text configures, under a source's name.
pub open spec fn from_source(
    spec_text: Seq<char>,
    sep: char,
    source: Seq<char>,
    complaint: Seq<char>,
) -> Resolved {
    match configured(spec_text, sep) {
        Ok(fields) => Resolved::Keys { fields, source },
        Err(e) => Resolved::Error { message: complaint + e },
    }
}

/// A text that is not blank, trimmed.
pub open spec fn filled(s: Option<Seq<char>>) -> Option<Seq<char>> {
    match s {
        Some(t) => if text::trimmed(t).len() > 0 {
            Some(text::trimmed(t))
        } else {
            None
        },
        None => None,
    }
}

/// The key set in effect: the environment's, or else the key file's, or else that
/// of the `.env` file, or else none.
pub open spec fn resolution(
    env_spec: Option<Seq<char>>,
    key_file: Option<(Seq<char>, Seq<char>)>,
    env_file: Option<Seq<char>>,
    label: Seq<char>,
) -> Resolved {
    match (filled(env_spec), key_file, env_file) {
        (Some(t), _, _) => from_source(
            t,
            ',',
            "EULLM_API_KEYS (environment)"@,
            "EULLM_API_KEYS in the environment is invalid: "@,
        ),
        (None, Some((path, contents)), _) => from_source(
            contents,
            '\n',
            "EULLM_API_KEYS_FILE ("@ + path + ")"@,
            "the key file '"@ + path + "' is invalid: "@,
        ),
        (None, None, Some(contents)) => match env_file::variable(contents, "EULLM_API_KEYS"@) {
            Some(t) => from_source(
                t,
                ',',
                "EULLM_API_KEYS ("@ + label + ")"@,
                "EULLM_API_KEYS in "@ + label + " is invalid: "@,
            ),
            None => Resolved::Disabled,
        },
        (None, None, None) => Resolved::Disabled,
    }
}

pub open spec fn opt_view(s: Option<&str>) -> Option<Seq<char>> {
    match s {
        Some(t) => Some(t@),
        None => None,
    }
}

pub open spec fn opt_pair_view(s: Option<(&str, &str)>) -> Option<(Seq<char>, Seq<char>)> {
    match s {
        Some((a, b)) => Some((a@, b@)),
        None => None,
    }
}

/// What is shown of a key: its id, and its quota where it has one.
pub open spec fn key_text(k: KeyEntry) -> Seq<char> {
    if k.rpm == 0 {
        k.id@
    } else {
        k.id@ + " ("@ + text::decimal(k.rpm as nat) + "/min)"@
    }
}

/// `i` is the last key with this digest.
pub open spec fn is_match(keys: Seq<KeyEntry>, digest: Seq<u8>, i: int) -> bool {
    &&& 0 <= i < keys.len()
    &&& keys[i].secret_sha256@ == digest
    &&& forall|j: int| i < j < keys.len() ==> (#[trigger] keys[j]).secret_sha256@ != digest
}

/// No key has this digest.
pub open spec fn no_match(keys: Seq<KeyEntry>, digest: Seq<u8>) -> bool {
    forall|j: int| 0 <= j < keys.len() ==> (#[trigger] keys[j]).secret_sha256@ != digest
}

impl ApiKeys {
    /// The key set holds what was resolved.
    pub open spec fn holds(self, r: Resolved) -> bool {
        &&& self.windows@.len() == 0
        &&& match r {
            Resolved::Keys { fields, source } => all_hold(self.keys@, fields) && self.source@
                == source && self.keys@.len() > 0,
            Resolved::Disabled => self.keys@.len() == 0 && self.source@
                == "not configured (no authentication — the IP allowlist is the only control)"@,
            Resolved::Error { .. } => false,
        }
    }

    /// No authentication configured.
    pub fn disabled() -> (r: Self)
        ensures
            r.holds(Resolved::Disabled),
            r.wf(),
    {
        ApiKeys {
            keys: Vec::new(),
            source: text::copy_text(
                "not configured (no authentication — the IP allowlist is the only control)",
            ),
            windows: Vec::new(),
        }
    }

    fn from_text(spec_text: &str, sep: char, source: String, complaint: String) -> (r: Result<
        Self,
        String,
    >)
        ensures
            match from_source(spec_text@, sep, source@, complaint@) {
                Resolved::Error { message } => r matches Err(m) && m@ == message,
                k => r matches Ok(a) && a.holds(k) && a.wf(),
            },
    {
        match parse_entries(spec_text, sep) {
            Ok(keys) => Ok(ApiKeys { keys, source, windows: Vec::new() }),
            Err(e) => {
                let mut m: String = complaint;
                m.append(e.as_str());
                Err(m)
            },
        }
    }

    /// Resolves the key set from the environment, then a key file (its path and
    /// contents), then `.env`.
    ///
    /// Returns `Err` when configuration is present but unusable.
    pub fn resolve(
        env_spec: Option<&str>,
        key_file: Option<(&str, &str)>,
        env_file_contents: Option<&str>,
        env_file_label: &str,
    ) -> (r: Result<Self, String>)
        ensures
            match resolution(
                opt_view(env_spec),
                opt_pair_view(key_file),
                opt_view(env_file_contents),
                env_file_label@,
            ) {
                Resolved::Error { message } => r matches Err(m) && m@ == message,
                k => r matches Ok(a) && a.holds(k) && a.wf(),
            },
    {
        if let Some(t) = env_spec {
            let chars: Vec<char> = text::to_chars(t);
            let spec_chars: &[char] = text::trim(&chars);
            if spec_chars.len() > 0 {
                return Self::from_text(
                    text::from_chars(spec_chars).as_str(),
                    ',',
                    text::copy_text("EULLM_API_KEYS (environment)"),
                    text::copy_text("EULLM_API_KEYS in the environment is invalid: "),
                );
            }
        }
        if let Some((path, contents)) = key_file {
            let mut source: String = text::copy_text("EULLM_API_KEYS_FILE (");
            source.append(path);
            source.append(")");
            let mut complaint: String = text::copy_text("the key file '");
            complaint.append(path);
            complaint.append("' is invalid: ");
            return Self::from_text(contents, '\n', source, complaint);
        }
        if let Some(contents) = env_file_contents {
            if let Some(t) = env_file::env_file_var(contents, "EULLM_API_KEYS") {
                let mut source: String = text::copy_text("EULLM_API_KEYS (");
                source.append(env_file_label);
                source.append(")");
                let mut complaint: String = text::copy_text("EULLM_API_KEYS in ");
                complaint.append(env_file_label);
                complaint.append(" is invalid: ");
                return Self::from_text(t.as_str(), ',', source, complaint);
            }
        }
        Ok(Self::disabled())
    }

    /// Whether any key is configured. When false, every request is admitted
    /// with an anonymous [`Identity`].
    pub fn is_enabled(&self) -> (r: bool)
        ensures
            r == (self.keys@.len() > 0),
    {
        self.keys.len() > 0
    }

    /// Where the configuration came from.
    pub fn source(&self) -> (r: &str)
        ensures
            r@ == self.source@,
    {
        self.source.as_str()
    }

    /// One line describing the configured keys: ids and their quotas. Contains
    /// no secrets.
    pub fn describe(&self) -> (r: String)
        ensures
            r@ == if self.keys@.len() == 0 {
                "none"@
            } else {
                text::joined(self.keys@.map_values(|k: KeyEntry| key_text(k)), ", "@)
            },
    {
        if self.keys.len() == 0 {
            return text::copy_text("none");
        }
        let mut parts: Vec<String> = Vec::new();
        let mut i: usize = 0;
        while i < self.keys.len()
            invariant
                i <= self.keys@.len(),
                parts@.len() == i,
                forall|j: int| 0 <= j < i ==> (#[trigger] parts@[j])@ == key_text(self.keys@[j]),
            decreases self.keys.len() - i,
        {
            let mut part: String = text::copy_text(self.keys[i].id.as_str());
            if self.keys[i].rpm != 0 {
                part.append(" (");
                part.append(text::decimal_text(self.keys[i].rpm as u64).as_str());
                part.append("/min)");
            }
            parts.push(part);
            i = i + 1;
        }
        assert(text::views(parts@) =~= self.keys@.map_values(|k: KeyEntry| key_text(k)));
        text::join(&parts, ", ")
    }

    /// What becomes of a request with a token of this digest.
    pub open spec fn admits_digest(
        self,
        digest: Seq<u8>,
        now: u64,
        after: ApiKeys,
        r: Result<Identity, AuthError>,
    ) -> bool {
        if no_match(self.keys@, digest) {
            after == self && r == Err::<Identity, AuthError>(AuthError::Invalid)
        } else {
            exists|i: int| #[trigger]
                is_match(self.keys@, digest, i) && {
                    let k = self.keys@[i];
                    if k.rpm == 0 {
                        &&& after == self
                        &&& r matches Ok(who) && (who.key_id matches Some(id) && id@ == k.id@)
                    } else {
                        &&& after.only_charged(self, k.id@)
                        &&& after.window(k.id@) == Some(
                            counted(self.window(k.id@), k.rpm as int, now as int),
                        )
                        &&& match wait(self.window(k.id@), k.rpm as int, now as int) {
                            Some(s) => r matches Err(AuthError::RateLimited {
                                key_id,
                                retry_after_s,
                            }) && key_id@ == k.id@ && retry_after_s == s,
                            None => r matches Ok(who) && (who.key_id matches Some(id) && id@
                                == k.id@),
                        }
                    }
                }
        }
    }

    /// Checks a token by its digest, and charges one request against the quota of
    /// the key it belongs to.
    pub fn authenticate_digest(&mut self, digest: &[u8; 32], now: u64) -> (r: Result<
        Identity,
        AuthError,
    >)
        requires
            old(self).wf(),
        ensures
            final(self).wf(),
            old(self).admits_digest(digest@, now, *final(self), r),
    {
        let mut matched: Option<usize> = None;
        let mut i: usize = 0;
        while i < self.keys.len()
            invariant
                *self == *old(self),
                i <= self.keys@.len(),
                match matched {
                    Some(m) => m < i && self.keys@[m as int].secret_sha256@ == digest@ && forall|
                        j: int,
                    |
                        m < j < i ==> (#[trigger] self.keys@[j]).secret_sha256@ != digest@,
                    None => forall|j: int|
                        0 <= j < i ==> (#[trigger] self.keys@[j]).secret_sha256@ != digest@,
                },
            decreases self.keys.len() - i,
        {
            if constant_time_eq(&self.keys[i].secret_sha256, digest) {
                matched = Some(i);
            }
            i = i + 1;
        }
        let m: usize = match matched {
            Some(m) => m,
            None => {
                return Err(AuthError::Invalid);
            },
        };
        assert(is_match(self.keys@, digest@, m as int));
        assert(!no_match(self.keys@, digest@)) by {
            assert(self.keys@[m as int].secret_sha256@ == digest@);
        }
        let id: String = text::copy_text(self.keys[m].id.as_str());
        let rpm: u32 = self.keys[m].rpm;
        match self.charge(id.as_str(), rpm, now) {
            Some(s) => Err(AuthError::RateLimited { key_id: id, retry_after_s: s }),
            None => Ok(Identity { key_id: Some(id) }),
        }
    }

    /// What a token that was presented, or none, leads to at `now`. Without
    /// keys everybody is let in, as nobody in particular.
    pub open spec fn authenticates(
        self,
        presented: Option<Seq<char>>,
        now: u64,
        after: Self,
        r: Result<Identity, AuthError>,
    ) -> bool {
        if self.keys@.len() == 0 {
            after == self && (r matches Ok(who) && who.key_id is None)
        } else {
            match filled(presented) {
                None => after == self && r == Err::<Identity, AuthError>(AuthError::Missing),
                Some(t) => self.admits_digest(text_digest(t), now, after, r),
            }
        }
    }

    /// Check a presented token and charge one request against its quota.
    ///
    /// `presented` is `None` when the request carried no token at all, which is
    /// reported separately from a wrong token. `now` is a reading, in
    /// nanoseconds, of a monotonic clock.
    pub fn authenticate(&mut self, presented: Option<&str>, now: u64) -> (r: Result<
        Identity,
        AuthError,
    >)
        requires
            old(self).wf(),
        ensures
            final(self).wf(),
            old(self).authenticates(opt_view(presented), now, *final(self), r),
    {
        if !self.is_enabled() {
            return Ok(Identity::anonymous());
        }
        let token: String = match presented {
            Some(t) => {
                let chars: Vec<char> = text::to_chars(t);
                text::from_chars(text::trim(&chars))
            },
            None => {
                return Err(AuthError::Missing);
            },
        };
        if token.as_str().is_empty() {
            return Err(AuthError::Missing);
        }
        let d: [u8; 32] = digest(token.as_str().as_bytes());
        self.authenticate_digest(&d, now)
    }
}

/// Configured keys are never ignored: where the environment names keys, they are
/// in force or startup fails.
pub proof fn law_configured_keys_are_in_force_or_fatal(
    env_spec: Seq<char>,
    key_file: Option<(Seq<char>, Seq<char>)>,
    env_file: Option<Seq<char>>,
    label: Seq<char>,
)
    requires
        text::trimmed(env_spec).len() > 0,
    ensures
        !(resolution(Some(env_spec), key_file, env_file, label) is Disabled),
        resolution(Some(env_spec), key_file, env_file, label) matches Resolved::Keys {
            fields,
            source,
        } ==> fields.len() > 0,
{
}

/// No two configured keys share an id.
pub proof fn law_key_ids_are_distinct(raw: Seq<Seq<char>>)
    ensures
        keys_in(raw) matches Ok(keys) ==> forall|i: int, j: int|
            0 <= i < j < keys.len() ==> (#[trigger] keys[i]).id != (#[trigger] keys[j]).id,
    decreases raw.len(),
{
    if raw.len() > 0 {
        law_key_ids_are_distinct(raw.drop_last());
        if let Ok(keys) = keys_in(raw) {
            let before = keys_in(raw.drop_last())->Ok_0;
            assert forall|i: int, j: int| 0 <= i < j < keys.len() implies (#[trigger] keys[i]).id
                != (#[trigger] keys[j]).id by {
                if j < before.len() {
                    assert(keys[i] == before[i] && keys[j] == before[j]);
                } else {
                    assert(keys[i] == before[i]);
                    assert(before[i].id != keys[j].id);
                }
            }
        }
    }
}

/// A configured secret, presented as the token, is matched by a key of the same
/// digest: a key never fails to recognise its own secret.
pub proof fn law_a_secret_is_recognised(keys: Seq<KeyEntry>, fields: Seq<Fields>, i: int)
    requires
        all_hold(keys, fields),
        0 <= i < fields.len(),
    ensures
        !no_match(keys, text_digest(fields[i].secret)),
        exists|m: int| #[trigger] is_match(keys, text_digest(fields[i].secret), m) && m >= i,
{
    assert(keys[i].holds(fields[i]));
    lemma_last_match(keys, text_digest(fields[i].secret), i, keys.len() as int);
}

proof fn lemma_last_match(keys: Seq<KeyEntry>, d: Seq<u8>, i: int, n: int)
    requires
        0 <= i < n <= keys.len(),
        keys[i].secret_sha256@ == d,
        forall|j: int| n <= j < keys.len() ==> (#[trigger] keys[j]).secret_sha256@ != d,
    ensures
        exists|m: int| #[trigger] is_match(keys, d, m) && m >= i,
    decreases n,
{
    if keys[n - 1].secret_sha256@ == d {
        assert(is_match(keys, d, n - 1));
    } else {
        lemma_last_match(keys, d, i, n - 1);
    }
}

/// A key is asked for where keys are configured: a request without a token is
/// told so, one with a token that is no key's secret is refused, and whoever is
/// let in presented the secret of the key that they are let in with. Without
/// keys everybody is let in, as nobody.
pub proof fn law_only_a_secret_lets_in(
    keys: ApiKeys,
    presented: Option<Seq<char>>,
    now: u64,
    after: ApiKeys,
    r: Result<Identity, AuthError>,
)
    requires
        keys.authenticates(presented, now, after, r),
    ensures
        keys.keys@.len() == 0 ==> (r matches Ok(who) && who.key_id is None),
        keys.keys@.len() > 0 && (presented is None || (presented matches Some(t) && text::trimmed(
            t,
        ).len() == 0)) ==> r == Err::<Identity, AuthError>(AuthError::Missing) && after == keys,
        keys.keys@.len() > 0 && (presented matches Some(t) && text::trimmed(t).len() > 0
            && forall|j: int|
            0 <= j < keys.keys@.len() ==> (#[trigger] keys.keys@[j]).secret_sha256@ != sha256(
                encode_utf8(text::trimmed(t)),
            )) ==> r == Err::<Identity, AuthError>(AuthError::Invalid) && after == keys,
        keys.keys@.len() > 0 && r is Ok ==> (presented matches Some(t) && exists|i: int|
            0 <= i < keys.keys@.len() && (#[trigger] keys.keys@[i]).secret_sha256@ == sha256(
                encode_utf8(text::trimmed(t)),
            ) && (r->Ok_0.key_id matches Some(id) && id@ == keys.keys@[i].id@)),
{
}

/// A quota counts the requests of a minute. The secret of one key, with room for
/// `rpm` requests: the first opens a minute, each one in it counts, one beyond
/// the quota is refused until the minute is over, and no other key is charged.
/// A key without a quota is never refused.
pub proof fn law_a_quota_counts_the_requests_of_a_minute(
    keys: ApiKeys,
    token: Seq<char>,
    now: u64,
    after: ApiKeys,
    r: Result<Identity, AuthError>,
    i: int,
    other: Seq<char>,
)
    requires
        keys.authenticates(Some(token), now, after, r),
        text::trimmed(token).len() > 0,
        0 <= i < keys.keys@.len(),
        forall|j: int|
            0 <= j < keys.keys@.len() ==> ((#[trigger] keys.keys@[j]).secret_sha256@ == sha256(
                encode_utf8(text::trimmed(token)),
            ) <==> j == i),
        other != keys.keys@[i].id@,
    ensures
        ({
            let k = keys.keys@[i];
            let w = keys.window(k.id@);
            let rpm = k.rpm as int;
            let fresh = w is None || (w matches Some(c) && now - c.started >= 60_000_000_000);
            &&& k.rpm == 0 ==> r is Ok && after == keys
            &&& rpm > 0 && fresh ==> r is Ok && after.window(k.id@) == Some(
                Count { started: now as int, count: 1 },
            )
            &&& rpm > 0 && !fresh && w->0.count < rpm ==> r is Ok && after.window(k.id@) == Some(
                Count { started: w->0.started, count: w->0.count + 1 },
            )
            &&& rpm > 0 && !fresh && w->0.count >= rpm ==> (r matches Err(
                AuthError::RateLimited { key_id, .. },
            ) && key_id@ == k.id@) && after.window(k.id@) == w
            &&& after.window(other) == keys.window(other)
        }),
{
    let t = text::trimmed(token);
    let d = text_digest(t);
    assert(keys.keys@[i].secret_sha256@ == d);
    assert(!no_match(keys.keys@, d));
    let m = choose|m: int| #[trigger]
        is_match(keys.keys@, d, m) && {
            let k = keys.keys@[m];
            if k.rpm == 0 {
                &&& after == keys
                &&& r matches Ok(who) && (who.key_id matches Some(id) && id@ == k.id@)
            } else {
                &&& after.only_charged(keys, k.id@)
                &&& after.window(k.id@) == Some(
                    counted(keys.window(k.id@), k.rpm as int, now as int),
                )
                &&& match wait(keys.window(k.id@), k.rpm as int, now as int) {
                    Some(s) => r matches Err(AuthError::RateLimited { key_id, retry_after_s })
                        && key_id@ == k.id@ && retry_after_s == s,
                    None => r matches Ok(who) && (who.key_id matches Some(id) && id@ == k.id@),
                }
            }
        };
    assert(m == i);
}

/// A refused request is told to wait for the rest of its minute, in whole
/// seconds, and for one at the least.
pub proof fn law_a_refused_request_waits_for_the_rest_of_its_minute(c: Count, rpm: int, now: int)
    requires
        c.count >= rpm,
        c.started <= now < c.started + 60_000_000_000,
    ensures
        wait(Some(c), rpm, now) matches Some(s) && {
            ||| s * 1_000_000_000 <= c.started + 60_000_000_000 - now < (s + 1) * 1_000_000_000
            ||| s == 1 && c.started + 60_000_000_000 - now < 1_000_000_000
        },
{
}

/// A character of an id is neither a blank nor a separator.
proof fn lemma_id_is_plain(id: Seq<char>)
    requires
        forall|i: int| 0 <= i < id.len() ==> id_char(#[trigger] id[i]),
    ensures
        id.len() > 0 ==> text::trimmed(id) == id,
        forall|i: int| 0 <= i < id.len() ==> #[trigger] id[i] != ':',
        encode_utf8(id).len() == id.len(),
{
    assert forall|i: int| 0 <= i < id.len() implies '\0' <= #[trigger] id[i] <= '\u{7f}' by {
        assert(id_char(id[i]));
    }
    vstd::utf8::is_ascii_chars_encode_utf8(id);
    if id.len() > 0 {
        assert(id_char(id[0]));
        assert(id_char(id[id.len() - 1]));
        assert(text::trimmed_start(id) == id);
        assert(text::trimmed_end(id) == id);
    }
    assert forall|i: int| 0 <= i < id.len() implies #[trigger] id[i] != ':' by {
        assert(id_char(id[i]));
    }
}

/// An entry is an id, a secret and, if one is set, a quota, with colons between
/// them: it configures just that key.
pub proof fn law_an_entry_configures_its_key(id: Seq<char>, secret: Seq<char>, rpm: u32)
    requires
        0 < id.len() <= 64,
        forall|i: int| 0 <= i < id.len() ==> id_char(#[trigger] id[i]),
        secret.len() >= 16,
        text::trimmed(secret) == secret,
        forall|i: int| 0 <= i < secret.len() ==> #[trigger] secret[i] != ':',
    ensures
        key_entry(id + seq![':'] + secret) == Ok::<Fields, Seq<char>>(
            Fields { id, secret, rpm: 0 },
        ),
        key_entry(id + seq![':'] + (secret + seq![':'] + ("rpm="@ + text::decimal(rpm as nat))))
            == Ok::<Fields, Seq<char>>(Fields { id, secret, rpm: rpm as nat }),
{
    lemma_id_is_plain(id);
    text::law_a_piece_ends_at_its_separator(id, ':', secret);
    text::law_a_piece_ends_at_its_separator(secret, ':', Seq::empty());
    let e = id + seq![':'] + secret;
    assert(text::pieces(e, ':') =~= seq![id, secret]);
    assert(text::pieces(e, ':').skip(2) =~= Seq::empty());
    assert(forall|i: int| 0 <= i < id.len() ==> id_char(#[trigger] id[i]));
    let n = text::decimal(rpm as nat);
    text::law_numbers_read_as_they_are_written(rpm as nat);
    let o = "rpm="@ + n;
    reveal_strlit("rpm=");
    assert forall|i: int| 0 <= i < o.len() implies o[i] != ':' by {
        if i >= 4 {
            assert(o[i] == n[i - 4]);
            assert(text::is_digit(n[i - 4]));
        }
    }
    let rest = secret + seq![':'] + o;
    text::law_a_piece_ends_at_its_separator(o, ':', Seq::empty());
    text::law_a_piece_ends_at_its_separator(secret, ':', o);
    text::law_a_piece_ends_at_its_separator(id, ':', rest);
    let f = id + seq![':'] + rest;
    assert(text::pieces(f, ':') =~= seq![id, secret, o]);
    let options = text::pieces(f, ':').skip(2);
    assert(options =~= seq![o]);
    assert(options.drop_last() =~= Seq::empty());
    assert(quota(id, options.drop_last()) == Ok::<nat, Seq<char>>(0nat));
    assert(o[0] == 'r' && !text::white('r'));
    assert(o.last() == n.last());
    assert(text::is_digit(n[n.len() - 1]));
    assert(text::trimmed_start(o) == o);
    assert(text::trimmed_end(o) == o);
    assert(o.take(4) =~= "rpm="@);
    assert(o.skip(4) =~= n);
    assert(text::is_digit(n[0]));
}

/// A configuration is its entries in order: a blank one or a comment adds
/// nothing, and an id that is there already is an error.
pub proof fn law_entries_are_taken_in_order(raw: Seq<Seq<char>>, x: Seq<char>, keys: Seq<Fields>)
    requires
        keys_in(raw) == Ok::<Seq<Fields>, Seq<char>>(keys),
    ensures
        ({
            let e = text::trimmed(x);
            let all = keys_in(raw.push(x));
            if e.len() == 0 || e[0] == '#' {
                all == Ok::<Seq<Fields>, Seq<char>>(keys)
            } else {
                match key_entry(e) {
                    Err(m) => all == Err::<Seq<Fields>, Seq<char>>(m),
                    Ok(k) => if exists|i: int|
                        0 <= i < keys.len() && (#[trigger] keys[i]).id == k.id {
                        all is Err
                    } else {
                        all == Ok::<Seq<Fields>, Seq<char>>(keys.push(k))
                    },
                }
            }
        }),
{
    assert(raw.push(x).drop_last() =~= raw);
}

/// Keys are looked for in the environment, then in the key file, then in the
/// `.env` file, and the first that is there decides: commas between the entries,
/// or one on each line of the key file.
pub proof fn law_the_first_source_decides(
    env: Option<Seq<char>>,
    file: Option<(Seq<char>, Seq<char>)>,
    dotenv: Option<Seq<char>>,
    label: Seq<char>,
)
    ensures
        ({
            let given = |r: Resolved, t: Seq<char>, sep: char|
                match configured(t, sep) {
                    Ok(f) => r matches Resolved::Keys { fields, .. } && fields == f,
                    Err(_) => r is Error,
                };
            let r = resolution(env, file, dotenv, label);
            let set = env is Some && text::trimmed(env->0).len() > 0;
            &&& set ==> given(r, text::trimmed(env->0), ',')
            &&& !set && file is Some ==> given(r, (file->Some_0).1, '\n')
            &&& !set && file is None ==> match dotenv {
                Some(c) => match env_file::variable(c, "EULLM_API_KEYS"@) {
                    Some(t) => given(r, t, ','),
                    None => r is Disabled,
                },
                None => r is Disabled,
            }
        }),
{
}

/// A key is shown by its id, and with its quota where it has one.
pub proof fn law_a_key_is_shown_with_its_quota(k: KeyEntry)
    ensures
        k.rpm == 0 ==> key_text(k) == k.id@,
        k.rpm > 0 ==> key_text(k) == k.id@ + " ("@ + text::decimal(k.rpm as nat) + "/min)"@,
{
}

/// The window of a key is that of its own id, wherever it stands.
pub proof fn law_a_window_is_found_by_its_key(windows: Seq<KeyWindow>, i: int)
    requires
        one_each(windows),
        0 <= i < windows.len(),
    ensures
        window_of(windows, windows[i].key_id@) == Some(
            Count { started: windows[i].started as int, count: windows[i].count as int },
        ),
    decreases windows.len(),
{
    if i < windows.len() - 1 {
        let less = windows.drop_last();
        assert forall|a: int, b: int| 0 <= a < b < less.len() implies (#[trigger] less[a]).key_id@
            != (#[trigger] less[b]).key_id@ by {
            assert(windows[a].key_id@ != windows[b].key_id@);
        }
        law_a_window_is_found_by_its_key(less, i);
        assert(windows[i].key_id@ != windows[windows.len() - 1].key_id@);
    }
}

} // verus!
