//! Bearer token challenges.
//!
//! A registry answers a request with `401 Unauthorized` and a header such as
//! `WWW-Authenticate: Bearer realm="...",service="..."`. A token is then
//! requested from the realm, and the request repeated with it.

use crate::text::{
    chars_of, contains_char, find_first, first_at, is_white_space,
    law_first_part_is_before_the_separator, law_white_space_around_goes, lemma_first_at, lowercase,
    lowercased, split, split_on, starts_with, text_of, texts, trim, trim_end_char, trim_end_matches, trim_start_char, trimmed,
};
use vstd::hash_map::StringHashMap;
use vstd::prelude::*;
use vstd::string::*;

verus! {

/// `s` without the runs of `c` at its two ends.
pub open spec fn trim_char(s: Seq<char>, c: char) -> Seq<char> {
    trim_end_char(trim_start_char(s, c), c)
}

/// The key and value of one part of a challenge, if it has an equals sign.
pub open spec fn key_value(part: Seq<char>) -> Option<(Seq<char>, Seq<char>)> {
    let p = trimmed(part);
    let eq = first_at(p, '=');
    if eq < p.len() {
        Some((lowercased(trimmed(p.take(eq))), trim_char(trimmed(p.skip(eq + 1)), '"')))
    } else {
        None
    }
}

/// The parameters of a challenge; of those with the same key the last counts.
pub open spec fn parameters(parts: Seq<Seq<char>>) -> Map<Seq<char>, Seq<char>>
    decreases parts.len(),
{
    if parts.len() == 0 {
        Map::empty()
    } else {
        let before = parameters(parts.drop_last());
        match key_value(parts.last()) {
            Some((k, v)) => before.insert(k, v),
            None => before,
        }
    }
}

/// The parameters of a challenge text, separated by commas.
pub open spec fn challenge_parameters(s: Seq<char>) -> Map<Seq<char>, Seq<char>> {
    parameters(split_on(s, ','))
}

/// The texts of a map of strings.
spec fn value_texts(m: Map<Seq<char>, String>) -> Map<Seq<char>, Seq<char>> {
    m.map_values(|s: String| s@)
}

/// `s` without the runs of `c` at its two ends.
fn trim_matches(s: &str, c: char) -> (r: String)
    ensures
        r@ == trim_char(s@, c),
{
    let v = chars_of(s);
    let mut a: usize = 0;
    assert(v@.skip(0) =~= s@);
    while a < v.len() && v[a] == c
        invariant
            a <= v.len(),
            trim_start_char(v@.skip(a as int), c) == trim_start_char(s@, c),
        decreases v.len() - a,
    {
        assert(v@.skip(a as int).drop_first() =~= v@.skip(a + 1));
        a = a + 1;
    }
    let t = text_of(&v, a, v.len());
    assert(t@ =~= v@.skip(a as int));
    trim_end_matches(t.as_str(), c)
}

/// Parse comma-separated `key="value"` pairs.
///
/// A comma within quotes separates too, which no known registry sends.
fn parse_kv_pairs(s: &str) -> (r: StringHashMap<String>)
    ensures
        value_texts(r@) == challenge_parameters(s@),
{
    let parts = split(s, ',');
    let mut map: StringHashMap<String> = StringHashMap::new();
    assert(texts(parts@).take(0) =~= Seq::empty());
    assert(value_texts(map@) =~= Map::empty());
    for i in 0..parts.len()
        invariant
            value_texts(map@) == parameters(texts(parts@).take(i as int)),
    {
        let ghost before = value_texts(map@);
        assert(texts(parts@).take(i + 1).drop_last() =~= texts(parts@).take(i as int));
        let part = trim(parts[i].as_str());
        let v = chars_of(part.as_str());
        let eq: usize = find_first(&v, '=');
        if eq < v.len() {
            let left = text_of(&v, 0, eq);
            let right = text_of(&v, eq + 1, v.len());
            assert(left@ =~= part@.take(eq as int));
            assert(right@ =~= part@.skip(eq + 1));
            let key = lowercase(trim(left.as_str()).as_str());
            let val = trim_matches(trim(right.as_str()).as_str(), '"');
            let ghost k = key@;
            let ghost x = val@;
            map.insert(key, val);
            assert(value_texts(map@) =~= before.insert(k, x));
        }
    }
    assert(texts(parts@).take(parts.len() as int) =~= texts(parts@));
    map
}

/// The parameters of a Bearer challenge.
#[derive(Debug)]
pub struct BearerChallenge {
    /// The URL that tokens are requested from.
    pub realm: String,
    /// The service that a token is requested for, if the challenge names one.
    pub service: Option<String>,
}

/// The values of a [`BearerChallenge`].
pub struct ChallengeView {
    pub realm: Seq<char>,
    pub service: Option<Seq<char>>,
}

impl View for BearerChallenge {
    type V = ChallengeView;

    open spec fn view(&self) -> ChallengeView {
        ChallengeView {
            realm: self.realm@,
            service: match self.service {
                Some(s) => Some(s@),
                None => None,
            },
        }
    }
}

/// The challenge of a header, if it is a Bearer challenge with a realm.
pub open spec fn challenge(header: Seq<char>) -> Option<ChallengeView> {
    if "Bearer "@.is_prefix_of(header) {
        let p = challenge_parameters(header.skip(7));
        if p.contains_key("realm"@) {
            Some(
                ChallengeView {
                    realm: p["realm"@],
                    service: if p.contains_key("service"@) {
                        Some(p["service"@])
                    } else {
                        None
                    },
                },
            )
        } else {
            None
        }
    } else {
        None
    }
}

/// The URL of a token request.
pub open spec fn token_url_of(c: ChallengeView, scope: Seq<char>) -> Seq<char> {
    let start = c.realm + (if c.realm.contains('?') {
        "&"@
    } else {
        "?"@
    });
    match c.service {
        Some(service) => start + "service="@ + service + "&"@ + "scope="@ + scope,
        None => start + "scope="@ + scope,
    }
}

impl BearerChallenge {
    /// Parse a `WWW-Authenticate` header value. `None` for any other scheme, or
    /// where there is no realm.
    pub fn parse(header: &str) -> (r: Option<Self>)
        ensures
            match r {
                Some(c) => challenge(header@) == Some(c@),
                None => challenge(header@) is None,
            },
            r is Some ==> "Bearer "@.is_prefix_of(header@),
    {
        proof {
            reveal_strlit("Bearer ");
        }
        if !starts_with(header, "Bearer ") {
            return None;
        }
        let rest = header.substring_char(7, header.unicode_len());
        assert(rest@ =~= header@.skip(7));
        let params = parse_kv_pairs(rest);
        let ghost p = challenge_parameters(rest@);
        proof {
            assert(value_texts(params@).dom() =~= params@.dom());
            assert(p == value_texts(params@));
        }
        let realm = match params.get("realm") {
            Some(realm) => realm.clone(),
            None => {
                assert(!p.contains_key("realm"@));
                return None;
            },
        };
        assert(p.contains_key("realm"@));
        let service = match params.get("service") {
            Some(service) => {
                assert(p.contains_key("service"@));
                Some(service.clone())
            },
            None => {
                assert(!p.contains_key("service"@));
                None
            },
        };
        Some(BearerChallenge { realm, service })
    }

    /// Build the URL of a token request for `scope`.
    ///
    /// The service, if there is one, and the scope are query parameters. They
    /// are not percent-encoded, since registries accept `:` and `/` as they
    /// are.
    pub fn token_url(&self, scope: &str) -> (r: String)
        ensures
            r@ == token_url_of(self@, scope@),
    {
        let mut url = self.realm.clone();
        if contains_char(self.realm.as_str(), '?') {
            url.append("&");
        } else {
            url.append("?");
        }
        if let Some(service) = &self.service {
            url.append("service=");
            url.append(service.as_str());
            url.append("&");
        }
        url.append("scope=");
        url.append(scope);
        url
    }
}

/// A token URL starts with the realm and ends with the scope.
pub proof fn law_token_url_spans_realm_and_scope(c: ChallengeView, scope: Seq<char>)
    ensures
        c.realm.is_prefix_of(token_url_of(c, scope)),
        ("scope="@ + scope).is_suffix_of(token_url_of(c, scope)),
{
    let url = token_url_of(c, scope);
    let end = "scope="@ + scope;
    assert(c.realm =~= url.subrange(0, c.realm.len() as int));
    assert(end =~= url.subrange(url.len() - end.len(), url.len() as int));
}

/// A token URL asks the realm for the service and the scope, as parameters behind
/// those that the realm has.
pub proof fn law_token_url_asks_for_service_and_scope(c: ChallengeView, scope: Seq<char>)
    ensures
        c.service is None && !c.realm.contains('?') ==> token_url_of(c, scope) == c.realm
            + "?scope="@ + scope,
        c.service is None && c.realm.contains('?') ==> token_url_of(c, scope) == c.realm
            + "&scope="@ + scope,
        c.service is Some && !c.realm.contains('?') ==> token_url_of(c, scope) == c.realm
            + "?service="@ + c.service->Some_0 + "&scope="@ + scope,
        c.service is Some && c.realm.contains('?') ==> token_url_of(c, scope) == c.realm
            + "&service="@ + c.service->Some_0 + "&scope="@ + scope,
{
    reveal_strlit("?");
    reveal_strlit("&");
    reveal_strlit("scope=");
    reveal_strlit("service=");
    reveal_strlit("?scope=");
    reveal_strlit("&scope=");
    reveal_strlit("?service=");
    reveal_strlit("&service=");
    let url = token_url_of(c, scope);
    match c.service {
        Some(service) => {
            if c.realm.contains('?') {
                assert(url =~= c.realm + "&service="@ + service + "&scope="@ + scope);
            } else {
                assert(url =~= c.realm + "?service="@ + service + "&scope="@ + scope);
            }
        },
        None => {
            if c.realm.contains('?') {
                assert(url =~= c.realm + "&scope="@ + scope);
            } else {
                assert(url =~= c.realm + "?scope="@ + scope);
            }
        },
    }
}

/// A parameter with its value in quotes.
pub open spec fn quoted(key: Seq<char>, value: Seq<char>) -> Seq<char> {
    key + seq!['=', '"'] + value + seq!['"']
}

proof fn lemma_unquoted(value: Seq<char>)
    requires
        !value.contains('"'),
    ensures
        trim_char(seq!['"'] + value + seq!['"'], '"') == value,
{
    let s = seq!['"'] + value + seq!['"'];
    let rest = value + seq!['"'];
    assert(s.drop_first() =~= rest);
    if value.len() == 0 {
        assert(rest.drop_first() =~= Seq::empty());
        assert(trim_start_char(rest.drop_first(), '"') =~= Seq::empty());
        assert(trim_start_char(rest, '"') =~= Seq::empty());
        assert(value =~= Seq::empty());
    } else {
        assert(value[0] != '"');
        assert(rest[0] == value[0]);
        assert(trim_start_char(rest, '"') == rest);
        assert(value[value.len() - 1] != '"');
        assert(rest.drop_last() =~= value);
        assert(trim_end_char(value, '"') == value);
    }
}

proof fn lemma_quoted(lead: Seq<char>, key: Seq<char>, value: Seq<char>)
    requires
        forall|i: int| 0 <= i < lead.len() ==> is_white_space(#[trigger] lead[i]),
        key.len() > 0,
        !key.contains('='),
        !is_white_space(key[0]) && !is_white_space(key.last()),
        !value.contains('"'),
    ensures
        key_value(lead + quoted(key, value)) == Some((lowercased(key), value)),
{
    let none = Seq::<char>::empty();
    let part = quoted(key, value);
    assert(part[0] == key[0]);
    assert(part.last() == '"');
    law_white_space_around_goes(lead, part, none);
    assert(lead + part + none =~= lead + part);
    assert forall|j: int| 0 <= j < key.len() implies part[j] != '=' by {
        assert(part[j] == key[j]);
    }
    assert(part[key.len() as int] == '=');
    lemma_first_at(part, '=', key.len() as int);
    assert(part.take(key.len() as int) =~= key);
    law_white_space_around_goes(none, key, none);
    assert(none + key + none =~= key);
    let right = seq!['"'] + value + seq!['"'];
    assert(part.skip(key.len() + 1int) =~= right);
    law_white_space_around_goes(none, right, none);
    assert(none + right + none =~= right);
    lemma_unquoted(value);
}

proof fn lemma_keys()
    ensures
        lowercased("realm"@) == "realm"@,
        lowercased("service"@) == "service"@,
        "realm"@ != "service"@,
        "realm"@.len() > 0 && !"realm"@.contains('=') && !"realm"@.contains(','),
        "service"@.len() > 0 && !"service"@.contains('=') && !"service"@.contains(','),
        !is_white_space("realm"@[0]) && !is_white_space("realm"@.last()),
        !is_white_space("service"@[0]) && !is_white_space("service"@.last()),
{
    reveal_strlit("realm");
    reveal_strlit("service");
    assert("realm"@.len() != "service"@.len());
    assert(lowercased("realm"@) =~= "realm"@);
    assert(lowercased("service"@) =~= "service"@);
    assert forall|j: int| 0 <= j < "realm"@.len() implies "realm"@[j] != '=' && "realm"@[j]
        != ',' by {}
    assert forall|j: int| 0 <= j < "service"@.len() implies "service"@[j] != '=' && "service"@[j]
        != ',' by {}
}

proof fn lemma_free_of_commas(lead: Seq<char>, key: Seq<char>, value: Seq<char>)
    requires
        !lead.contains(','),
        !key.contains(','),
        !value.contains(','),
    ensures
        !(lead + quoted(key, value)).contains(','),
{
    let s = lead + quoted(key, value);
    if s.contains(',') {
        let j = choose|j: int| 0 <= j < s.len() && s[j] == ',';
        let (n, m) = (lead.len() as int, lead.len() + key.len());
        if j < n {
            assert(lead[j] == ',');
        } else if j < m {
            assert(key[j - n] == ',');
        } else if m + 2 <= j < s.len() - 1 {
            assert(value[j - m - 2] == ',');
        }
    }
}

/// A challenge is taken for the realm and the service that its header quotes.
pub proof fn law_challenge_is_what_the_header_quotes(
    realm: Seq<char>,
    service: Seq<char>,
    lead: Seq<char>,
)
    requires
        !realm.contains('"') && !realm.contains(','),
        !service.contains('"') && !service.contains(','),
        forall|i: int| 0 <= i < lead.len() ==> is_white_space(#[trigger] lead[i]),
        !lead.contains(','),
    ensures
        challenge("Bearer "@ + quoted("realm"@, realm)) == Some(
            ChallengeView { realm, service: None },
        ),
        challenge(
            "Bearer "@ + quoted("realm"@, realm) + seq![','] + lead + quoted("service"@, service),
        ) == Some(ChallengeView { realm, service: Some(service) }),
        challenge(
            "Bearer "@ + quoted("service"@, service) + seq![','] + lead + quoted("realm"@, realm),
        ) == Some(ChallengeView { realm, service: Some(service) }),
{
    reveal_strlit("Bearer ");
    lemma_keys();
    let none = Seq::<char>::empty();
    let (a, b) = (quoted("realm"@, realm), quoted("service"@, service));
    lemma_quoted(none, "realm"@, realm);
    lemma_quoted(none, "service"@, service);
    lemma_quoted(lead, "realm"@, realm);
    lemma_quoted(lead, "service"@, service);
    lemma_free_of_commas(none, "realm"@, realm);
    lemma_free_of_commas(none, "service"@, service);
    lemma_free_of_commas(lead, "realm"@, realm);
    lemma_free_of_commas(lead, "service"@, service);
    assert(none + a =~= a);
    assert(none + b =~= b);
    lemma_two_parameters(a, lead + b);
    lemma_two_parameters(b, lead + a);
    let one = "Bearer "@ + a;
    assert("Bearer "@ =~= one.subrange(0, 7));
    assert(one.skip(7) =~= a);
    let ab = "Bearer "@ + a + seq![','] + lead + b;
    assert("Bearer "@ =~= ab.subrange(0, 7));
    assert(ab.skip(7) =~= a.push(',') + (lead + b));
    let ba = "Bearer "@ + b + seq![','] + lead + a;
    assert("Bearer "@ =~= ba.subrange(0, 7));
    assert(ba.skip(7) =~= b.push(',') + (lead + a));
}

proof fn lemma_two_parameters(a: Seq<char>, b: Seq<char>)
    requires
        !a.contains(','),
        !b.contains(','),
        key_value(a) is Some,
        key_value(b) is Some,
    ensures
        challenge_parameters(a) == Map::<Seq<char>, Seq<char>>::empty().insert(
            key_value(a)->Some_0.0,
            key_value(a)->Some_0.1,
        ),
        challenge_parameters(a.push(',') + b) == Map::<Seq<char>, Seq<char>>::empty().insert(
            key_value(a)->Some_0.0,
            key_value(a)->Some_0.1,
        ).insert(key_value(b)->Some_0.0, key_value(b)->Some_0.1),
{
    law_first_part_is_before_the_separator(a, ',', b);
    law_first_part_is_before_the_separator(b, ',', Seq::empty());
    let none = Map::<Seq<char>, Seq<char>>::empty();
    let one = seq![a];
    let two = seq![a, b];
    assert(one.drop_last() =~= Seq::empty());
    assert(parameters(one.drop_last()) == none);
    assert(one.last() == a);
    let (k, v) = key_value(a)->Some_0;
    assert(parameters(one) == none.insert(k, v));
    assert(one + seq![b] =~= two);
    assert(two.drop_last() =~= one);
    assert(two.last() == b);
    let (l, w) = key_value(b)->Some_0;
    assert(parameters(two) == none.insert(k, v).insert(l, w));
    assert(split_on(a.push(',') + b, ',') == two);
}

/// A header is no challenge unless it starts with `Bearer ` and names a realm.
pub proof fn law_challenge_names_a_realm(service: Seq<char>, header: Seq<char>)
    requires
        !service.contains('"') && !service.contains(','),
    ensures
        challenge("Bearer "@ + quoted("service"@, service)) is None,
        !"Bearer "@.is_prefix_of(header) ==> challenge(header) is None,
{
    reveal_strlit("Bearer ");
    lemma_keys();
    let none = Seq::<char>::empty();
    let b = quoted("service"@, service);
    lemma_quoted(none, "service"@, service);
    lemma_free_of_commas(none, "service"@, service);
    assert(none + b =~= b);
    lemma_two_parameters(b, b);
    let one = "Bearer "@ + b;
    assert("Bearer "@ =~= one.subrange(0, 7));
    assert(one.skip(7) =~= b);
}

/// The case of a parameter's name does not matter, and white space around the
/// parameter does not either. Of two parameters with one name the last counts.
pub proof fn law_parameter_names_are_without_case(
    key: Seq<char>,
    a: Seq<char>,
    b: Seq<char>,
    lead: Seq<char>,
)
    requires
        lowercased(key) == "realm"@,
        key.len() > 0,
        !key.contains('=') && !key.contains(','),
        !is_white_space(key[0]) && !is_white_space(key.last()),
        !a.contains('"') && !a.contains(','),
        !b.contains('"') && !b.contains(','),
        forall|i: int| 0 <= i < lead.len() ==> is_white_space(#[trigger] lead[i]),
        !lead.contains(','),
    ensures
        challenge("Bearer "@ + lead + quoted(key, a)) == Some(
            ChallengeView { realm: a, service: None },
        ),
        challenge("Bearer "@ + quoted("realm"@, a) + seq![','] + lead + quoted(key, b)) == Some(
            ChallengeView { realm: b, service: None },
        ),
{
    reveal_strlit("Bearer ");
    lemma_keys();
    let none = Seq::<char>::empty();
    let x = quoted("realm"@, a);
    let y = lead + quoted(key, b);
    let z = lead + quoted(key, a);
    lemma_quoted(none, "realm"@, a);
    lemma_quoted(lead, key, b);
    lemma_quoted(lead, key, a);
    lemma_free_of_commas(none, "realm"@, a);
    lemma_free_of_commas(lead, key, b);
    lemma_free_of_commas(lead, key, a);
    assert(none + x =~= x);
    lemma_two_parameters(x, y);
    lemma_two_parameters(z, z);
    let one = "Bearer "@ + lead + quoted(key, a);
    assert("Bearer "@ =~= one.subrange(0, 7));
    assert(one.skip(7) =~= z);
    let two = "Bearer "@ + x + seq![','] + lead + quoted(key, b);
    assert("Bearer "@ =~= two.subrange(0, 7));
    assert(two.skip(7) =~= x.push(',') + y);
}

} // verus!
