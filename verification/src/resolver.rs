//! Address family policy for outbound targets.

use vstd::prelude::*;
use vstd::string::StrSliceExecFns;
use crate::error::SnellError;
use crate::net::{IpAddr, SocketAddr};
use crate::text::{is_word, lemma_words_ignore_case, lowered, trim, trimmed};

verus! {

/// Which address families an outbound target may have.
#[derive(Debug, Clone, Copy, PartialEq, Eq, Structural)]
pub enum IpPolicy {
    /// The first result of any family.
    Default,
    /// The first IPv4 result, else the first result.
    PreferIpv4,
    /// The first IPv6 result, else the first result.
    PreferIpv6,
    /// IPv4 only; a target without an IPv4 address is refused.
    Ipv4Only,
    /// IPv6 only; a target without an IPv6 address is refused.
    Ipv6Only,
}

/// Which records a lookup asks for.
#[derive(Debug, Clone, Copy, PartialEq, Eq, Structural)]
pub enum LookupStrategy {
    Ipv4Only,
    Ipv6Only,
    Ipv4AndIpv6,
}

/// Whether an `ipv6` flag turns both families on: its first character decides.
pub open spec fn ipv6_flag_on(value: Seq<char>) -> bool {
    value.len() > 0 && (value[0] == 't' || value[0] == 'T' || value[0] == 'y' || value[0] == 'Y'
        || value[0] == '1')
}

/// The policy of an `ipv6` flag.
pub open spec fn flag_policy(value: Seq<char>) -> IpPolicy {
    if ipv6_flag_on(value) {
        IpPolicy::Default
    } else {
        IpPolicy::Ipv4Only
    }
}

/// The policy that a preference names, by any of its spellings.
pub open spec fn parsed_preference(value: Seq<char>) -> Option<IpPolicy> {
    let w = lowered(trimmed(value));
    if w == "default"@ || w == "first-result"@ {
        Some(IpPolicy::Default)
    } else if w == "prefer-ipv4"@ || w == "ipv4-preferred"@ {
        Some(IpPolicy::PreferIpv4)
    } else if w == "prefer-ipv6"@ || w == "ipv6-preferred"@ {
        Some(IpPolicy::PreferIpv6)
    } else if w == "ipv4-only"@ || w == "only-ipv4"@ {
        Some(IpPolicy::Ipv4Only)
    } else if w == "ipv6-only"@ || w == "only-ipv6"@ {
        Some(IpPolicy::Ipv6Only)
    } else {
        None
    }
}

/// The policy of two optional settings: a preference that is not blank decides,
/// else the flag, which is off where it is unset.
pub open spec fn settings_policy(preference: Option<Seq<char>>, ipv6: Option<Seq<char>>) -> Result<
    IpPolicy,
    SnellError,
> {
    if preference is Some && trimmed(preference->Some_0).len() > 0 {
        match parsed_preference(preference->Some_0) {
            Some(p) => Ok(p),
            None => Err(SnellError::UnknownPreference),
        }
    } else {
        match ipv6 {
            Some(v) => Ok(flag_policy(v)),
            None => Ok(IpPolicy::Ipv4Only),
        }
    }
}

/// The text behind an optional setting.
pub open spec fn setting(value: Option<&str>) -> Option<Seq<char>> {
    match value {
        Some(s) => Some(s@),
        None => None,
    }
}

/// Whether the policy refuses addresses of the family of `ip`.
pub open spec fn refuses(policy: IpPolicy, ip: IpAddr) -> bool {
    (policy is Ipv4Only && ip is V6) || (policy is Ipv6Only && ip is V4)
}

/// Whether an address has the family that the policy wants first.
pub open spec fn wanted(policy: IpPolicy, a: SocketAddr) -> bool {
    match policy {
        IpPolicy::Default => true,
        IpPolicy::PreferIpv4 | IpPolicy::Ipv4Only => a.ip is V4,
        IpPolicy::PreferIpv6 | IpPolicy::Ipv6Only => a.ip is V6,
    }
}

/// The first wanted address of `addrs`.
pub open spec fn first_wanted(addrs: Seq<SocketAddr>, policy: IpPolicy) -> Option<SocketAddr>
    decreases addrs.len(),
{
    if addrs.len() == 0 {
        None
    } else if wanted(policy, addrs[0]) {
        Some(addrs[0])
    } else {
        first_wanted(addrs.skip(1), policy)
    }
}

/// The address that the policy picks from a lookup's results.
pub open spec fn picked(addrs: Seq<SocketAddr>, policy: IpPolicy) -> Option<SocketAddr> {
    match first_wanted(addrs, policy) {
        Some(a) => Some(a),
        None => if addrs.len() > 0 && (policy is PreferIpv4 || policy is PreferIpv6) {
            Some(addrs[0])
        } else {
            None
        },
    }
}

/// A preference that is set and not blank decides alone: the flag does not
/// matter.
pub proof fn lemma_preference_overrides_flag(
    preference: Seq<char>,
    ipv6: Option<Seq<char>>,
    other: Option<Seq<char>>,
)
    requires
        trimmed(preference).len() > 0,
    ensures
        settings_policy(Some(preference), ipv6) == settings_policy(Some(preference), other),
{
}

/// Preferences ignore the case of their letters.
pub proof fn lemma_preference_ignores_case(s: Seq<char>, t: Seq<char>)
    requires
        lowered(s) == lowered(t),
    ensures
        parsed_preference(s) == parsed_preference(t),
{
    lemma_words_ignore_case(s, t);
}

/// The name of a policy in a configuration.
pub open spec fn spelling_of(p: IpPolicy) -> Seq<char> {
    match p {
        IpPolicy::Default => "default"@,
        IpPolicy::PreferIpv4 => "prefer-ipv4"@,
        IpPolicy::PreferIpv6 => "prefer-ipv6"@,
        IpPolicy::Ipv4Only => "ipv4-only"@,
        IpPolicy::Ipv6Only => "ipv6-only"@,
    }
}

/// The name of a policy reads back as the policy.
pub proof fn lemma_spelling_reads_back(p: IpPolicy)
    ensures
        parsed_preference(spelling_of(p)) == Some(p),
{
    reveal_strlit("default");
    reveal_strlit("first-result");
    reveal_strlit("prefer-ipv4");
    reveal_strlit("ipv4-preferred");
    reveal_strlit("prefer-ipv6");
    reveal_strlit("ipv6-preferred");
    reveal_strlit("ipv4-only");
    reveal_strlit("only-ipv4");
    reveal_strlit("ipv6-only");
    reveal_strlit("only-ipv6");
    let w = spelling_of(p);
    assert(trimmed(w) == w);
    assert(lowered(w) =~= w);
    assert("prefer-ipv4"@[10] != "prefer-ipv6"@[10]);
    assert("ipv4-only"@[3] != "ipv6-only"@[3]);
    assert("ipv4-only"@[0] != "only-ipv4"@[0]);
    assert("ipv4-only"@[0] != "only-ipv6"@[0]);
    assert("ipv6-only"@[0] != "only-ipv4"@[0]);
    assert("ipv6-only"@[0] != "only-ipv6"@[0]);
}

impl IpPolicy {
    /// The policy of an `ipv6` flag: a first character of `t`, `T`, `y`, `Y` or
    /// `1` turns both families on, every other value means IPv4 only.
    pub fn from_ipv6_flag(value: &str) -> (p: IpPolicy)
        ensures
            p == flag_policy(value@),
    {
        if value.unicode_len() == 0 {
            return IpPolicy::Ipv4Only;
        }
        let c: char = value.get_char(0);
        if c == 't' || c == 'T' || c == 'y' || c == 'Y' || c == '1' {
            IpPolicy::Default
        } else {
            IpPolicy::Ipv4Only
        }
    }

    /// The policy that a preference names; `None` for an unknown value.
    pub fn parse_preference(value: &str) -> (p: Option<IpPolicy>)
        ensures
            p == parsed_preference(value@),
    {
        if is_word(value, "default") || is_word(value, "first-result") {
            Some(IpPolicy::Default)
        } else if is_word(value, "prefer-ipv4") || is_word(value, "ipv4-preferred") {
            Some(IpPolicy::PreferIpv4)
        } else if is_word(value, "prefer-ipv6") || is_word(value, "ipv6-preferred") {
            Some(IpPolicy::PreferIpv6)
        } else if is_word(value, "ipv4-only") || is_word(value, "only-ipv4") {
            Some(IpPolicy::Ipv4Only)
        } else if is_word(value, "ipv6-only") || is_word(value, "only-ipv6") {
            Some(IpPolicy::Ipv6Only)
        } else {
            None
        }
    }

    /// The policy of the two environment settings. A preference that is set and
    /// not blank always wins over the flag.
    pub fn from_env(preference: Option<&str>, ipv6: Option<&str>) -> (p: Result<
        IpPolicy,
        SnellError,
    >)
        ensures
            p == settings_policy(setting(preference), setting(ipv6)),
    {
        if let Some(pref) = preference {
            if trim(pref).unicode_len() > 0 {
                return match IpPolicy::parse_preference(pref) {
                    Some(p) => Ok(p),
                    None => Err(SnellError::UnknownPreference),
                };
            }
        }
        match ipv6 {
            Some(v) => Ok(IpPolicy::from_ipv6_flag(v)),
            None => Ok(IpPolicy::Ipv4Only),
        }
    }

    /// Whether an address given as a literal may be used. Only the policies that
    /// name one family refuse any.
    pub fn allows(self, ip: IpAddr) -> (r: bool)
        ensures
            r == !refuses(self, ip),
    {
        match (self, ip) {
            (IpPolicy::Ipv4Only, IpAddr::V6(_)) => false,
            (IpPolicy::Ipv6Only, IpAddr::V4(_)) => false,
            _ => true,
        }
    }

    /// Whether the policy can turn a successful lookup into a failure.
    pub fn is_only(self) -> (r: bool)
        ensures
            r == (self is Ipv4Only || self is Ipv6Only),
    {
        match self {
            IpPolicy::Ipv4Only => true,
            IpPolicy::Ipv6Only => true,
            _ => false,
        }
    }

    /// Which records to ask for, so that no useless query is sent.
    pub fn lookup_strategy(self) -> (s: LookupStrategy)
        ensures
            s == match self {
                IpPolicy::Ipv4Only => LookupStrategy::Ipv4Only,
                IpPolicy::Ipv6Only => LookupStrategy::Ipv6Only,
                _ => LookupStrategy::Ipv4AndIpv6,
            },
    {
        match self {
            IpPolicy::Ipv4Only => LookupStrategy::Ipv4Only,
            IpPolicy::Ipv6Only => LookupStrategy::Ipv6Only,
            _ => LookupStrategy::Ipv4AndIpv6,
        }
    }

    /// The policy's name in a configuration.
    pub fn spelling(self) -> (s: &'static str)
        ensures
            s@ == spelling_of(self),
    {
        match self {
            IpPolicy::Default => "default",
            IpPolicy::PreferIpv4 => "prefer-ipv4",
            IpPolicy::PreferIpv6 => "prefer-ipv6",
            IpPolicy::Ipv4Only => "ipv4-only",
            IpPolicy::Ipv6Only => "ipv6-only",
        }
    }
}

impl Default for IpPolicy {
    fn default() -> (p: IpPolicy)
        ensures
            p == IpPolicy::Default,
    {
        IpPolicy::Default
    }
}

/// Picks one outbound address: the first result for the default policy, the
/// first of the wanted family otherwise, with any first result as a fallback
/// where the family is only preferred.
pub fn pick_addr(addrs: &[SocketAddr], policy: IpPolicy) -> (out: Option<SocketAddr>)
    ensures
        out == picked(addrs@, policy),
{
    let mut i: usize = 0;
    assert(addrs@.skip(0) =~= addrs@);
    while i < addrs.len()
        invariant
            i <= addrs@.len(),
            first_wanted(addrs@, policy) == first_wanted(addrs@.skip(i as int), policy),
        decreases addrs@.len() - i,
    {
        let a: SocketAddr = addrs[i];
        let hit: bool = match policy {
            IpPolicy::Default => true,
            IpPolicy::PreferIpv4 => a.is_ipv4(),
            IpPolicy::Ipv4Only => a.is_ipv4(),
            IpPolicy::PreferIpv6 => !a.is_ipv4(),
            IpPolicy::Ipv6Only => !a.is_ipv4(),
        };
        if hit {
            return Some(a);
        }
        assert(addrs@.skip(i as int).skip(1) =~= addrs@.skip(i + 1));
        i = i + 1;
    }
    assert(first_wanted(addrs@, policy) is None);
    match policy {
        IpPolicy::PreferIpv4 => {},
        IpPolicy::PreferIpv6 => {},
        _ => return None,
    }
    if addrs.len() > 0 {
        Some(addrs[0])
    } else {
        None
    }
}

proof fn lemma_first_wanted(addrs: Seq<SocketAddr>, policy: IpPolicy)
    ensures
        first_wanted(addrs, policy) matches Some(a) ==> addrs.contains(a) && wanted(policy, a),
        first_wanted(addrs, policy) is None <==> forall|i: int|
            0 <= i < addrs.len() ==> !wanted(policy, #[trigger] addrs[i]),
    decreases addrs.len(),
{
    if addrs.len() > 0 {
        let rest = addrs.skip(1);
        lemma_first_wanted(rest, policy);
        assert(addrs[0] == addrs.first());
        if wanted(policy, addrs[0]) {
            assert(addrs.contains(addrs[0]));
        } else {
            assert forall|i: int| 0 <= i < rest.len() implies #[trigger] rest[i] == addrs[i + 1] by {}
            if first_wanted(rest, policy) is None {
                assert forall|i: int| 0 <= i < addrs.len() implies !wanted(
                    policy,
                    #[trigger] addrs[i],
                ) by {
                    if i > 0 {
                        assert(rest[i - 1] == addrs[i]);
                    }
                }
            } else {
                let a = first_wanted(rest, policy)->Some_0;
                let k = choose|k: int| 0 <= k < rest.len() && rest[k] == a;
                assert(addrs[k + 1] == a);
            }
        }
    }
}

/// Whatever a policy picks is one of the results and of no refused family.
pub proof fn lemma_picked_is_allowed(addrs: Seq<SocketAddr>, policy: IpPolicy)
    ensures
        picked(addrs, policy) matches Some(a) ==> addrs.contains(a) && !refuses(policy, a.ip),
{
    lemma_first_wanted(addrs, policy);
    if addrs.len() > 0 {
        assert(addrs.contains(addrs[0]));
    }
}

/// Nothing is picked exactly when every result is of a refused family: only the
/// policies that name one family can turn a lookup into a failure.
pub proof fn lemma_nothing_picked(addrs: Seq<SocketAddr>, policy: IpPolicy)
    ensures
        picked(addrs, policy) is None <==> forall|i: int|
            0 <= i < addrs.len() ==> refuses(policy, (#[trigger] addrs[i]).ip),
{
    lemma_first_wanted(addrs, policy);
    if picked(addrs, policy) is Some && addrs.len() > 0 {
        let a = picked(addrs, policy)->Some_0;
        lemma_picked_is_allowed(addrs, policy);
        let k = choose|k: int| 0 <= k < addrs.len() && addrs[k] == a;
        assert(!refuses(policy, addrs[k].ip));
    }
}

/// `host` without the brackets around it, if it has both.
pub open spec fn unbracketed(host: Seq<char>) -> Seq<char> {
    if host.len() >= 2 && host[0] == '[' && host.last() == ']' {
        host.subrange(1, host.len() - 1)
    } else {
        host
    }
}

/// `s` up to its first `c`.
pub open spec fn up_to(s: Seq<char>, c: char) -> Seq<char>
    decreases s.len(),
{
    if s.len() == 0 || s[0] == c {
        Seq::empty()
    } else {
        seq![s[0]] + up_to(s.skip(1), c)
    }
}

/// Index of the first `c` in `s`, or the length of `s`.
fn find_char(s: &str, from: usize, c: char) -> (i: usize)
    requires
        from <= s@.len(),
    ensures
        from <= i <= s@.len(),
        s@.subrange(from as int, i as int) == up_to(s@.skip(from as int), c),
        i < s@.len() ==> s@[i as int] == c,
{
    let n: usize = s.unicode_len();
    let mut i: usize = from;
    while i < n && s.get_char(i) != c
        invariant
            from <= i <= n,
            n == s@.len(),
            up_to(s@.skip(from as int), c) == s@.subrange(from as int, i as int) + up_to(
                s@.skip(i as int),
                c,
            ),
        decreases n - i,
    {
        assert(s@.skip(i as int).skip(1) =~= s@.skip(i + 1));
        assert(s@.subrange(from as int, i as int) + (seq![s@[i as int]] + up_to(s@.skip(i + 1), c))
            =~= s@.subrange(from as int, i + 1) + up_to(s@.skip(i + 1), c));
        i = i + 1;
    }
    assert(up_to(s@.skip(i as int), c) =~= Seq::<char>::empty());
    assert(s@.subrange(from as int, i as int) + Seq::<char>::empty() =~= s@.subrange(
        from as int,
        i as int,
    ));
    i
}

/// What is left of a target host without brackets and zone.
pub open spec fn literal_text_of(host: Seq<char>) -> Seq<char> {
    up_to(unbracketed(host), '%')
}

/// The text of a target host that has to be an address for the host to be a
/// literal: without brackets, without a zone (`%eth0`).
pub fn literal_text(host: &str) -> (out: &str)
    ensures
        out@ == literal_text_of(host@),
{
    let n: usize = host.unicode_len();
    let bare: &str = if n >= 2 && host.get_char(0) == '[' && host.get_char(n - 1) == ']' {
        host.substring_char(1, n - 1)
    } else {
        host
    };
    let end: usize = find_char(bare, 0, '%');
    assert(bare@.skip(0) =~= bare@);
    bare.substring_char(0, end)
}

/// The fields of `s` between commas.
pub open spec fn comma_fields(s: Seq<char>) -> Seq<Seq<char>>
    decreases s.len(),
{
    let first = up_to(s, ',');
    if first.len() < s.len() {
        seq![first] + comma_fields(s.skip(first.len() as int + 1))
    } else {
        seq![first]
    }
}

/// The fields, trimmed, of which those that are not blank.
pub open spec fn filled(fields: Seq<Seq<char>>) -> Seq<Seq<char>>
    decreases fields.len(),
{
    if fields.len() == 0 {
        Seq::empty()
    } else if trimmed(fields[0]).len() == 0 {
        filled(fields.skip(1))
    } else {
        seq![trimmed(fields[0])] + filled(fields.skip(1))
    }
}

/// The entries of a comma-separated list of name servers.
pub open spec fn nameserver_list(spec: Seq<char>) -> Seq<Seq<char>> {
    filled(comma_fields(spec))
}

/// The texts in a comma-separated list of name servers; blank entries are left
/// out. A list without any entry is refused.
pub fn nameserver_texts(spec: &str) -> (out: Result<Vec<String>, SnellError>)
    ensures
        ({
            let want = nameserver_list(spec@);
            match out {
                Ok(v) => {
                    &&& want.len() > 0
                    &&& v@.len() == want.len()
                    &&& forall|i: int| 0 <= i < want.len() ==> (#[trigger] v@[i])@ == want[i]
                },
                Err(e) => want.len() == 0 && e == SnellError::NoNameservers,
            }
        }),
{
    let n: usize = spec.unicode_len();
    let ghost want = filled(comma_fields(spec@));
    let mut out: Vec<String> = Vec::new();
    let ghost mut done: Seq<Seq<char>> = Seq::empty();
    let mut at: usize = 0;
    let mut more: bool = true;
    proof {
        assert(spec@.skip(0) =~= spec@);
        assert(done + want =~= want);
    }
    while more
        invariant
            at <= n,
            n == spec@.len(),
            out@.len() == done.len(),
            forall|i: int| 0 <= i < done.len() ==> (#[trigger] out@[i])@ == done[i],
            want == if more {
                done + filled(comma_fields(spec@.skip(at as int)))
            } else {
                done
            },
        decreases (if more { n - at + 1 } else { 0 }),
    {
        let end: usize = find_char(spec, at, ',');
        let field: &str = spec.substring_char(at, end);
        let word: &str = trim(field);
        let ghost rest = spec@.skip(at as int);
        let ghost fields = comma_fields(rest);
        assert(fields[0] == field@);
        if end < n {
            assert(rest.skip(field@.len() as int + 1) =~= spec@.skip(end + 1));
            assert(fields.skip(1) =~= comma_fields(spec@.skip(end + 1)));
        } else {
            assert(fields.skip(1) =~= Seq::<Seq<char>>::empty());
        }
        if word.unicode_len() > 0 {
            out.push(word.to_owned());
            proof {
                assert(done + (seq![word@] + filled(fields.skip(1))) =~= done.push(word@) + filled(
                    fields.skip(1),
                ));
                done = done.push(word@);
            }
        }
        assert(want == done + filled(fields.skip(1)));
        if end < n {
            at = end + 1;
        } else {
            more = false;
            assert(done + filled(fields.skip(1)) =~= done);
        }
    }
    if out.len() == 0 {
        Err(SnellError::NoNameservers)
    } else {
        Ok(out)
    }
}

/// The outbound address of a literal target, or `None` where the policy refuses
/// its family. A literal needs no lookup.
pub fn literal_target(ip: IpAddr, port: u16, policy: IpPolicy) -> (out: Option<SocketAddr>)
    ensures
        out == if refuses(policy, ip) {
            None
        } else {
            Some(SocketAddr { ip, port })
        },
        out == picked(seq![(SocketAddr { ip, port })], policy),
{
    let one = SocketAddr::new(ip, port);
    proof {
        reveal_with_fuel(first_wanted, 2);
        assert(seq![one].skip(1) =~= Seq::<SocketAddr>::empty());
    }
    if policy.allows(ip) {
        Some(one)
    } else {
        None
    }
}

/// Where the first wanted result stands, that one is found.
proof fn lemma_first_wanted_at(addrs: Seq<SocketAddr>, policy: IpPolicy, i: int)
    requires
        0 <= i < addrs.len(),
        wanted(policy, addrs[i]),
        forall|j: int| 0 <= j < i ==> !wanted(policy, #[trigger] addrs[j]),
    ensures
        first_wanted(addrs, policy) == Some(addrs[i]),
    decreases addrs.len(),
{
    if i > 0 {
        let rest = addrs.skip(1);
        assert(!wanted(policy, addrs[0]));
        assert forall|j: int| 0 <= j < i - 1 implies !wanted(policy, #[trigger] rest[j]) by {
            assert(rest[j] == addrs[j + 1]);
        }
        assert(rest[i - 1] == addrs[i]);
        lemma_first_wanted_at(rest, policy, i - 1);
    }
}

/// A policy that prefers or demands IPv4 picks the IPv4 result of least index,
/// however many results of the other family stand before it.
pub proof fn lemma_first_ipv4_is_picked(addrs: Seq<SocketAddr>, i: int)
    requires
        0 <= i < addrs.len(),
        addrs[i].ip is V4,
        forall|j: int| 0 <= j < i ==> (#[trigger] addrs[j]).ip is V6,
    ensures
        picked(addrs, IpPolicy::PreferIpv4) == Some(addrs[i]),
        picked(addrs, IpPolicy::Ipv4Only) == Some(addrs[i]),
{
    lemma_first_wanted_at(addrs, IpPolicy::PreferIpv4, i);
    lemma_first_wanted_at(addrs, IpPolicy::Ipv4Only, i);
}

/// A policy that prefers or demands IPv6 picks the IPv6 result of least index,
/// however many results of the other family stand before it.
pub proof fn lemma_first_ipv6_is_picked(addrs: Seq<SocketAddr>, i: int)
    requires
        0 <= i < addrs.len(),
        addrs[i].ip is V6,
        forall|j: int| 0 <= j < i ==> (#[trigger] addrs[j]).ip is V4,
    ensures
        picked(addrs, IpPolicy::PreferIpv6) == Some(addrs[i]),
        picked(addrs, IpPolicy::Ipv6Only) == Some(addrs[i]),
{
    lemma_first_wanted_at(addrs, IpPolicy::PreferIpv6, i);
    lemma_first_wanted_at(addrs, IpPolicy::Ipv6Only, i);
}

/// Results of one family only: a policy that prefers the other family falls back
/// to the first result, one that demands it picks nothing.
pub proof fn lemma_missing_family(addrs: Seq<SocketAddr>)
    requires
        addrs.len() > 0,
    ensures
        (forall|j: int| 0 <= j < addrs.len() ==> (#[trigger] addrs[j]).ip is V6) ==> {
            &&& picked(addrs, IpPolicy::PreferIpv4) == Some(addrs[0])
            &&& picked(addrs, IpPolicy::Ipv4Only) is None
        },
        (forall|j: int| 0 <= j < addrs.len() ==> (#[trigger] addrs[j]).ip is V4) ==> {
            &&& picked(addrs, IpPolicy::PreferIpv6) == Some(addrs[0])
            &&& picked(addrs, IpPolicy::Ipv6Only) is None
        },
{
    lemma_first_wanted(addrs, IpPolicy::PreferIpv4);
    lemma_first_wanted(addrs, IpPolicy::Ipv4Only);
    lemma_first_wanted(addrs, IpPolicy::PreferIpv6);
    lemma_first_wanted(addrs, IpPolicy::Ipv6Only);
}

/// Without a family in mind the first result is picked, and of no results
/// nothing is picked.
pub proof fn lemma_default_picks_the_first(addrs: Seq<SocketAddr>, policy: IpPolicy)
    ensures
        addrs.len() > 0 ==> picked(addrs, IpPolicy::Default) == Some(addrs[0]),
        addrs.len() == 0 ==> picked(addrs, policy) is None,
{
}

/// A literal is refused exactly by the policy that demands the other family.
pub proof fn lemma_literals_by_family(policy: IpPolicy, v4: u32, v6: u128)
    ensures
        refuses(policy, IpAddr::V4(v4)) <==> policy == IpPolicy::Ipv6Only,
        refuses(policy, IpAddr::V6(v6)) <==> policy == IpPolicy::Ipv4Only,
{
}

/// Whatever the spelling, upper and lower case and white space around it do not
/// matter, and each policy has exactly two names.
pub proof fn lemma_preference_names(value: Seq<char>, p: IpPolicy)
    ensures
        parsed_preference(value) == Some(p) <==> ({
            let w = lowered(trimmed(value));
            match p {
                IpPolicy::Default => w == "default"@ || w == "first-result"@,
                IpPolicy::PreferIpv4 => w == "prefer-ipv4"@ || w == "ipv4-preferred"@,
                IpPolicy::PreferIpv6 => w == "prefer-ipv6"@ || w == "ipv6-preferred"@,
                IpPolicy::Ipv4Only => w == "ipv4-only"@ || w == "only-ipv4"@,
                IpPolicy::Ipv6Only => w == "ipv6-only"@ || w == "only-ipv6"@,
            }
        }),
{
    reveal_strlit("default");
    reveal_strlit("first-result");
    reveal_strlit("prefer-ipv4");
    reveal_strlit("ipv4-preferred");
    reveal_strlit("prefer-ipv6");
    reveal_strlit("ipv6-preferred");
    reveal_strlit("ipv4-only");
    reveal_strlit("only-ipv4");
    reveal_strlit("ipv6-only");
    reveal_strlit("only-ipv6");
    assert("prefer-ipv4"@[10] != "prefer-ipv6"@[10]);
    assert("ipv4-preferred"@[3] != "ipv6-preferred"@[3]);
    assert("ipv4-only"@[3] != "ipv6-only"@[3]);
    assert("only-ipv4"@[8] != "only-ipv6"@[8]);
    assert("default"@.len() == 7);
    assert("first-result"@.len() == 12);
    assert("prefer-ipv4"@.len() == 11);
    assert("prefer-ipv6"@.len() == 11);
    assert("ipv4-preferred"@.len() == 14);
    assert("ipv6-preferred"@.len() == 14);
    assert("ipv4-only"@.len() == 9);
    assert("ipv6-only"@.len() == 9);
    assert("only-ipv4"@.len() == 9);
    assert("only-ipv6"@.len() == 9);
    assert("ipv4-only"@[0] != "only-ipv4"@[0]);
    assert("ipv4-only"@[0] != "only-ipv6"@[0]);
    assert("ipv6-only"@[0] != "only-ipv4"@[0]);
    assert("ipv6-only"@[0] != "only-ipv6"@[0]);
}

/// Without a preference, or with a blank one, the flag decides by its first
/// character alone, and an unset or empty flag keeps to IPv4.
pub proof fn lemma_flag_decides_without_preference(
    preference: Option<Seq<char>>,
    first: char,
    more: Seq<char>,
)
    requires
        preference is None || trimmed(preference->Some_0).len() == 0,
    ensures
        settings_policy(preference, None) == Ok::<IpPolicy, SnellError>(IpPolicy::Ipv4Only),
        settings_policy(preference, Some(Seq::empty())) == Ok::<IpPolicy, SnellError>(
            IpPolicy::Ipv4Only,
        ),
        settings_policy(preference, Some(seq![first] + more)) == Ok::<IpPolicy, SnellError>(
            if first == 't' || first == 'T' || first == 'y' || first == 'Y' || first == '1' {
                IpPolicy::Default
            } else {
                IpPolicy::Ipv4Only
            },
        ),
{
    assert((seq![first] + more)[0] == first);
}

/// A preference that is not blank is followed if it names a policy and refused
/// if it names none.
pub proof fn lemma_preference_is_followed(
    preference: Seq<char>,
    ipv6: Option<Seq<char>>,
    p: IpPolicy,
)
    requires
        trimmed(preference).len() > 0,
    ensures
        settings_policy(Some(preference), ipv6) == Ok::<IpPolicy, SnellError>(p) <==>
            parsed_preference(preference) == Some(p),
        settings_policy(Some(preference), ipv6) is Err <==> parsed_preference(preference) is None,
        settings_policy(Some(preference), ipv6) is Err ==> settings_policy(
            Some(preference),
            ipv6,
        )->Err_0 == SnellError::UnknownPreference,
{
}

/// `up_to` cuts at the first `c`: what it keeps holds no `c`, is a front part,
/// and ends where a `c` stands or the text ends.
pub proof fn lemma_up_to(s: Seq<char>, c: char)
    ensures
        up_to(s, c).len() <= s.len(),
        up_to(s, c) == s.take(up_to(s, c).len() as int),
        forall|i: int| 0 <= i < up_to(s, c).len() ==> s[i] != c,
        up_to(s, c).len() < s.len() ==> s[up_to(s, c).len() as int] == c,
    decreases s.len(),
{
    if s.len() > 0 && s[0] != c {
        let t = s.skip(1);
        lemma_up_to(t, c);
        let n = up_to(t, c).len() as int;
        assert(up_to(s, c) =~= s.take(n + 1)) by {
            assert(t.take(n) =~= s.subrange(1, n + 1));
        }
        assert forall|i: int| 0 <= i < up_to(s, c).len() implies s[i] != c by {
            if i > 0 {
                assert(t[i - 1] == s[i]);
            }
        }
        if n < t.len() {
            assert(t[n] == s[n + 1]);
        }
    } else {
        assert(up_to(s, c) =~= s.take(0));
    }
}

/// The literal text of a host: brackets around it and a zone behind it go, all
/// else stays.
pub proof fn lemma_literal_text(host: Seq<char>, zone: Seq<char>)
    requires
        forall|i: int| 0 <= i < host.len() ==> host[i] != '%' && host[i] != '[' && host[i] != ']',
    ensures
        literal_text_of(host) == host,
        literal_text_of(seq!['['] + host + seq![']']) == host,
        literal_text_of(seq!['['] + host + seq!['%'] + zone + seq![']']) == host,
        literal_text_of(host + seq!['%'] + zone) == host,
{
    lemma_cut_at(host, Seq::empty(), '%');
    assert(host + Seq::<char>::empty() =~= host);
    assert(unbracketed(host) == host);
    let b = seq!['['] + host + seq![']'];
    assert(unbracketed(b) =~= host);
    let z = seq!['['] + host + seq!['%'] + zone + seq![']'];
    assert(unbracketed(z) =~= host + (seq!['%'] + zone));
    lemma_cut_at(host, seq!['%'] + zone, '%');
    let o = host + seq!['%'] + zone;
    assert(o =~= host + (seq!['%'] + zone));
    assert(o[0] != '[');
    assert(unbracketed(o) == o);
}

proof fn lemma_cut_at(a: Seq<char>, b: Seq<char>, c: char)
    requires
        forall|i: int| 0 <= i < a.len() ==> a[i] != c,
        b.len() > 0 ==> b[0] == c,
    ensures
        up_to(a + b, c) == a,
{
    let s = a + b;
    lemma_up_to(s, c);
    let n = up_to(s, c).len() as int;
    if n < a.len() {
        assert(s[n] == a[n]);
    }
    if n > a.len() {
        assert(s[a.len() as int] == b[0]);
    }
    assert(s.take(n) =~= a);
}

/// A list is its first field, a comma, and a list of the other fields; the last
/// field has no comma behind it.
pub proof fn lemma_comma_fields(field: Seq<char>, rest: Seq<char>)
    requires
        forall|i: int| 0 <= i < field.len() ==> field[i] != ',',
    ensures
        comma_fields(field) == seq![field],
        comma_fields(field + seq![','] + rest) == seq![field] + comma_fields(rest),
{
    lemma_cut_at(field, Seq::empty(), ',');
    assert(field + Seq::<char>::empty() =~= field);
    let s = field + seq![','] + rest;
    assert(s =~= field + (seq![','] + rest));
    lemma_cut_at(field, seq![','] + rest, ',');
    assert(s.skip(field.len() as int + 1) =~= rest);
}

/// The entries of a list of fields are its fields, trimmed, in their order,
/// without the blank ones.
pub proof fn lemma_filled(fields: Seq<Seq<char>>, last: Seq<char>)
    ensures
        filled(fields.push(last)) == if trimmed(last).len() == 0 {
            filled(fields)
        } else {
            filled(fields).push(trimmed(last))
        },
        forall|i: int| 0 <= i < filled(fields).len() ==> (#[trigger] filled(fields)[i]).len() > 0,
    decreases fields.len(),
{
    let more = fields.push(last);
    if fields.len() == 0 {
        assert(more.skip(1) =~= fields);
        assert(filled(more) =~= if trimmed(last).len() == 0 {
            filled(fields)
        } else {
            filled(fields).push(trimmed(last))
        });
    } else {
        let tail = fields.skip(1);
        lemma_filled(tail, last);
        assert(more.skip(1) =~= tail.push(last));
        assert(more[0] == fields[0]);
        assert(filled(more) =~= if trimmed(last).len() == 0 {
            filled(fields)
        } else {
            filled(fields).push(trimmed(last))
        });
        assert forall|i: int| 0 <= i < filled(fields).len() implies (#[trigger] filled(
            fields,
        )[i]).len() > 0 by {
            if trimmed(fields[0]).len() == 0 {
                assert(filled(fields)[i] == filled(tail)[i]);
            } else if i > 0 {
                assert(filled(fields)[i] == filled(tail)[i - 1]);
            }
        }
    }
}

/// A list with one more entry behind a comma has that entry, trimmed, behind the
/// others, unless it is blank; a list without a comma has at most one entry.
pub proof fn lemma_nameserver_list(list: Seq<char>, entry: Seq<char>)
    requires
        forall|i: int| 0 <= i < entry.len() ==> entry[i] != ',',
    ensures
        nameserver_list(entry) == if trimmed(entry).len() == 0 {
            Seq::<Seq<char>>::empty()
        } else {
            seq![trimmed(entry)]
        },
        nameserver_list(list + seq![','] + entry) == if trimmed(entry).len() == 0 {
            nameserver_list(list)
        } else {
            nameserver_list(list).push(trimmed(entry))
        },
{
    lemma_comma_fields(entry, Seq::empty());
    lemma_filled(Seq::empty(), entry);
    assert(seq![entry] =~= Seq::<Seq<char>>::empty().push(entry));
    assert(filled(Seq::<Seq<char>>::empty()) =~= Seq::<Seq<char>>::empty());
    assert(nameserver_list(entry) =~= if trimmed(entry).len() == 0 {
        Seq::<Seq<char>>::empty()
    } else {
        seq![trimmed(entry)]
    });
    lemma_last_field(list, entry);
    lemma_filled(comma_fields(list), entry);
}

proof fn lemma_last_field(list: Seq<char>, entry: Seq<char>)
    requires
        forall|i: int| 0 <= i < entry.len() ==> entry[i] != ',',
    ensures
        comma_fields(list + seq![','] + entry) == comma_fields(list).push(entry),
    decreases list.len(),
{
    let s = list + seq![','] + entry;
    let first = up_to(list, ',');
    let n = first.len() as int;
    lemma_up_to(list, ',');
    assert forall|i: int| 0 <= i < first.len() implies first[i] != ',' by {
        assert(list.take(n)[i] == list[i]);
    }
    lemma_comma_fields(entry, Seq::empty());
    if n < list.len() {
        let rest = list.skip(n + 1);
        assert(list =~= first + seq![','] + rest);
        lemma_last_field(rest, entry);
        lemma_comma_fields(first, rest + seq![','] + entry);
        assert(s =~= first + seq![','] + (rest + seq![','] + entry));
        assert(comma_fields(s) =~= comma_fields(list).push(entry));
    } else {
        assert(list =~= first);
        lemma_comma_fields(first, entry);
        assert(comma_fields(s) =~= comma_fields(list).push(entry));
    }
}

} // verus!
