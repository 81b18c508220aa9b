//! Image references.
//!
//! Docker Hub short names are normalised and the default tag `latest` applied,
//! so that every reference is fully qualified.

use crate::text::{
    chars_of, contains_char, find_first, find_last, first_at, last_at, lemma_first_at,
    lemma_last_at, same_text, text_of,
};
use vstd::prelude::*;
use vstd::string::*;

verus! {

/// How an image is addressed within its repository.
#[derive(Debug)]
pub enum Ref {
    Tag(String),
    Digest(String),
}

/// The values of a [`Ref`].
pub enum RefView {
    Tag(Seq<char>),
    Digest(Seq<char>),
}

impl RefView {
    /// The tag or digest.
    pub open spec fn text(self) -> Seq<char> {
        match self {
            RefView::Tag(t) => t,
            RefView::Digest(d) => d,
        }
    }
}

impl View for Ref {
    type V = RefView;

    open spec fn view(&self) -> RefView {
        match self {
            Ref::Tag(t) => RefView::Tag(t@),
            Ref::Digest(d) => RefView::Digest(d@),
        }
    }
}

impl Clone for Ref {
    fn clone(&self) -> (r: Self)
        ensures
            r@ == self@,
    {
        match self {
            Ref::Tag(t) => Ref::Tag(t.clone()),
            Ref::Digest(d) => Ref::Digest(d.clone()),
        }
    }
}

impl Ref {
    /// The tag or digest.
    pub fn to_string(&self) -> (r: String)
        ensures
            r@ == self@.text(),
            match self {
                Ref::Tag(t) => r@ == t@,
                Ref::Digest(d) => r@ == d@,
            },
    {
        match self {
            Ref::Tag(t) => t.clone(),
            Ref::Digest(d) => d.clone(),
        }
    }
}

/// A fully qualified image reference.
#[derive(Debug)]
pub struct ImageReference {
    /// API hostname. For Docker Hub this is `registry-1.docker.io`.
    pub registry: String,
    /// Repository with its namespace, such as `library/nginx`.
    pub repository: String,
    /// Tag or digest of the manifest.
    pub reference: Ref,
}

/// The values of an [`ImageReference`].
pub struct ImageView {
    pub registry: Seq<char>,
    pub repository: Seq<char>,
    pub reference: RefView,
}

impl View for ImageReference {
    type V = ImageView;

    open spec fn view(&self) -> ImageView {
        ImageView {
            registry: self.registry@,
            repository: self.repository@,
            reference: self.reference@,
        }
    }
}

impl Clone for ImageReference {
    fn clone(&self) -> (r: Self)
        ensures
            r@ == self@,
    {
        ImageReference {
            registry: self.registry.clone(),
            repository: self.repository.clone(),
            reference: self.reference.clone(),
        }
    }
}

/// Why a reference cannot be parsed.
#[derive(Clone, Copy, Debug, PartialEq, Eq, Structural)]
pub enum ReferenceError {
    /// There is no image name.
    EmptyName,
}

/// Whether a component is a registry rather than a namespace: it has a dot or a
/// colon, or is `localhost`.
pub open spec fn is_registry(s: Seq<char>) -> bool {
    s == "localhost"@ || s.contains('.') || s.contains(':')
}

/// The registry and the rest of a name, as written.
pub open spec fn raw_parts(name: Seq<char>) -> (Seq<char>, Seq<char>) {
    let slash = first_at(name, '/');
    if slash < name.len() && is_registry(name.take(slash)) {
        (name.take(slash), name.skip(slash + 1))
    } else {
        ("docker.io"@, name)
    }
}

/// The API hostname and the repository of a name. Docker Hub names of one
/// component are in the namespace `library`.
pub open spec fn qualified(name: Seq<char>) -> (Seq<char>, Seq<char>) {
    let (registry, repo) = raw_parts(name);
    if registry == "docker.io"@ {
        (
            "registry-1.docker.io"@,
            if repo.contains('/') {
                repo
            } else {
                "library/"@ + repo
            },
        )
    } else {
        (registry, repo)
    }
}

/// Where the tag of a name starts, if it has one: behind the last colon, unless
/// a slash follows, which makes it the colon of a port.
pub open spec fn tag_colon(s: Seq<char>) -> Option<int> {
    let colon = last_at(s, ':');
    if colon >= 0 && !s.skip(colon + 1).contains('/') {
        Some(colon)
    } else {
        None
    }
}

/// The name of a reference, and its tag or digest, as far as it has one.
pub open spec fn name_and_ref(s: Seq<char>) -> (Seq<char>, Option<RefView>) {
    let at = first_at(s, '@');
    if at < s.len() {
        (s.take(at), Some(RefView::Digest(s.skip(at + 1))))
    } else {
        match tag_colon(s) {
            Some(colon) => (s.take(colon), Some(RefView::Tag(s.skip(colon + 1)))),
            None => (s, None),
        }
    }
}

/// The reference that a text stands for.
pub open spec fn parsed(s: Seq<char>) -> Result<ImageView, ReferenceError> {
    let (name, r) = name_and_ref(s);
    if name.len() == 0 {
        Err(ReferenceError::EmptyName)
    } else {
        let (registry, repository) = qualified(name);
        Ok(
            ImageView {
                registry,
                repository,
                reference: match r {
                    Some(r) => r,
                    None => RefView::Tag("latest"@),
                },
            },
        )
    }
}

/// The text of a reference.
pub open spec fn image_text(i: ImageView) -> Seq<char> {
    i.registry + "/"@ + i.repository + ":"@ + i.reference.text()
}

/// The scope of a pull.
pub open spec fn pull_scope_of(i: ImageView) -> Seq<char> {
    "repository:"@ + i.repository + ":pull"@
}

fn looks_like_registry(s: &str) -> (r: bool)
    ensures
        r == is_registry(s@),
{
    same_text(s, "localhost") || contains_char(s, '.') || contains_char(s, ':')
}

/// Split a name, without its tag, into the API hostname and the repository.
fn split_registry_repo(name: &str) -> (r: (String, String))
    ensures
        (r.0@, r.1@) == qualified(name@),
{
    let v = chars_of(name);
    let slash: usize = find_first(&v, '/');
    let mut registry = "docker.io".to_owned();
    let mut repo = name.to_owned();
    if slash < v.len() {
        let first = text_of(&v, 0, slash);
        assert(first@ =~= name@.take(slash as int));
        if looks_like_registry(first.as_str()) {
            registry = first;
            repo = text_of(&v, slash + 1, v.len());
            assert(repo@ =~= name@.skip(slash + 1));
        }
    }
    assert((registry@, repo@) == raw_parts(name@));
    if same_text(registry.as_str(), "docker.io") {
        if !contains_char(repo.as_str(), '/') {
            let mut named = "library/".to_owned();
            named.append(repo.as_str());
            repo = named;
        }
        registry = "registry-1.docker.io".to_owned();
    }
    (registry, repo)
}

impl ImageReference {
    /// Parse an image reference as a person writes it.
    ///
    /// Without a registry the image is on Docker Hub, where names of one
    /// component are in the namespace `library`, and whose API hostname is
    /// `registry-1.docker.io`. Without a tag or digest the tag is `latest`.
    pub fn parse(s: &str) -> (r: Result<Self, ReferenceError>)
        ensures
            match r {
                Ok(i) => parsed(s@) == Ok::<ImageView, ReferenceError>(i@),
                Err(e) => parsed(s@) == Err::<ImageView, ReferenceError>(e),
            },
    {
        let v = chars_of(s);
        let at: usize = find_first(&v, '@');
        let name: String;
        let reference: Ref;
        if at < v.len() {
            name = text_of(&v, 0, at);
            let digest = text_of(&v, at + 1, v.len());
            assert(name@ =~= s@.take(at as int));
            assert(digest@ =~= s@.skip(at + 1));
            reference = Ref::Digest(digest);
        } else {
            match find_last(&v, ':') {
                Some(colon) => {
                    let tag = text_of(&v, colon + 1, v.len());
                    assert(tag@ =~= s@.skip(colon + 1));
                    if contains_char(tag.as_str(), '/') {
                        name = s.to_owned();
                        reference = Ref::Tag("latest".to_owned());
                    } else {
                        name = text_of(&v, 0, colon);
                        assert(name@ =~= s@.take(colon as int));
                        reference = Ref::Tag(tag);
                    }
                },
                None => {
                    name = s.to_owned();
                    reference = Ref::Tag("latest".to_owned());
                },
            }
        }
        if name.as_str().unicode_len() == 0 {
            return Err(ReferenceError::EmptyName);
        }
        let (registry, repository) = split_registry_repo(name.as_str());
        Ok(ImageReference { registry, repository, reference })
    }

    /// The tag or digest, as manifest URLs have it.
    pub fn reference_str(&self) -> (r: &str)
        ensures
            r@ == self@.reference.text(),
            match self.reference {
                Ref::Tag(t) => r@ == t@,
                Ref::Digest(d) => r@ == d@,
            },
    {
        match &self.reference {
            Ref::Tag(t) => t.as_str(),
            Ref::Digest(d) => d.as_str(),
        }
    }

    /// A copy of this reference that addresses a digest.
    pub fn with_digest(&self, digest: &str) -> (r: Self)
        ensures
            r@ == (ImageView { reference: RefView::Digest(digest@), ..self@ }),
            r.registry@ == self.registry@,
            r.repository@ == self.repository@,
            r.reference matches Ref::Digest(d) && d@ == digest@,
    {
        ImageReference {
            registry: self.registry.clone(),
            repository: self.repository.clone(),
            reference: Ref::Digest(digest.to_owned()),
        }
    }

    /// The scope of a token request for pulling from this repository.
    pub fn pull_scope(&self) -> (r: String)
        ensures
            r@ == pull_scope_of(self@),
            r@ == "repository:"@ + self.repository@ + ":pull"@,
    {
        let mut r = "repository:".to_owned();
        r.append(self.repository.as_str());
        r.append(":pull");
        r
    }

    /// The reference in full.
    pub fn to_string(&self) -> (r: String)
        ensures
            r@ == image_text(self@),
            self.reference matches Ref::Tag(t) ==> r@ == self.registry@ + "/"@ + self.repository@
                + ":"@ + t@,
            self.reference matches Ref::Digest(d) ==> r@ == self.registry@ + "/"@ + self.repository@
                + ":"@ + d@,
    {
        let mut r = self.registry.clone();
        r.append("/");
        r.append(self.repository.as_str());
        r.append(":");
        r.append(self.reference_str());
        r
    }
}

// ── Laws ────────────────────────────────────────────────────────────────────

proof fn lemma_first_at_bounds(s: Seq<char>, c: char)
    ensures
        0 <= first_at(s, c) <= s.len(),
        forall|j: int| 0 <= j < first_at(s, c) ==> s[j] != c,
        first_at(s, c) < s.len() ==> s[first_at(s, c)] == c,
    decreases s.len(),
{
    if s.len() > 0 && s[0] != c {
        lemma_first_at_bounds(s.drop_first(), c);
        assert forall|j: int| 0 <= j < first_at(s, c) implies s[j] != c by {
            if j > 0 {
                assert(s.drop_first()[j - 1] == s[j]);
            }
        }
    }
}

proof fn lemma_last_at_bounds(s: Seq<char>, c: char)
    ensures
        -1 <= last_at(s, c) < s.len(),
        forall|j: int| last_at(s, c) < j < s.len() ==> s[j] != c,
        last_at(s, c) >= 0 ==> s[last_at(s, c)] == c,
    decreases s.len(),
{
    if s.len() > 0 && s.last() != c {
        lemma_last_at_bounds(s.drop_last(), c);
        assert forall|j: int| last_at(s, c) < j < s.len() implies s[j] != c by {
            if j < s.len() - 1 {
                assert(s.drop_last()[j] == s[j]);
            }
        }
    }
}

/// A parsed registry is a registry, is not the short name of Docker Hub, and
/// has no slash.
pub proof fn law_registry_is_qualified(s: Seq<char>)
    requires
        parsed(s) is Ok,
    ensures
        is_registry(parsed(s)->Ok_0.registry),
        parsed(s)->Ok_0.registry != "docker.io"@,
        !parsed(s)->Ok_0.registry.contains('/'),
{
    let (name, _) = name_and_ref(s);
    lemma_first_at_bounds(name, '/');
    let slash = first_at(name, '/');
    reveal_strlit("docker.io");
    reveal_strlit("registry-1.docker.io");
    assert("registry-1.docker.io"@[10] == '.');
    assert("registry-1.docker.io"@.contains('.'));
    assert("registry-1.docker.io"@.len() != "docker.io"@.len());
    assert(!"registry-1.docker.io"@.contains('/')) by {
        assert forall|j: int|
            0 <= j < "registry-1.docker.io"@.len() implies "registry-1.docker.io"@[j] != '/' by {}
    }
    assert(!name.take(slash).contains('/')) by {
        if name.take(slash).contains('/') {
            let j = choose|j: int| 0 <= j < name.take(slash).len() && name.take(slash)[j] == '/';
            assert(name[j] == '/');
        }
    }
}

/// The text of a parsed reference with a tag stands for the same reference, so
/// that normalising changes nothing any more. The text of one with a digest has
/// the digest where a tag would be, and is left out.
pub proof fn law_qualified_reference_is_stable(s: Seq<char>)
    requires
        parsed(s) is Ok,
        parsed(s)->Ok_0.reference is Tag,
    ensures
        parsed(image_text(parsed(s)->Ok_0)) == parsed(s),
{
    let i = parsed(s)->Ok_0;
    let text = image_text(i);
    let tag = i.reference.text();
    let name = i.registry + "/"@ + i.repository;
    let n = i.registry.len() as int;
    reveal_strlit("/");
    reveal_strlit(":");
    reveal_strlit("latest");
    reveal_strlit("docker.io");
    reveal_strlit("library/");
    reveal_strlit("registry-1.docker.io");
    law_registry_is_qualified(s);
    lemma_first_at_bounds(s, '@');
    lemma_last_at_bounds(s, ':');
    assert(tag_is_plain(s));
    lemma_plain(s);
    // The last colon of the text is the one before the tag.
    let c = name.len() as int;
    assert(text =~= name + seq![':'] + tag);
    assert(text.skip(c + 1) =~= tag);
    assert(text.take(c) =~= name);
    assert forall|j: int| c < j < text.len() implies text[j] != ':' by {
        assert(text[j] == tag[j - c - 1]);
    }
    lemma_last_at(text, ':', c);
    assert forall|j: int| 0 <= j < text.len() implies text[j] != '@' by {
        if j < n {
            assert(text[j] == i.registry[j]);
        } else if j == n {
        } else if j < c {
            assert(text[j] == i.repository[j - n - 1]);
        } else if j > c {
            assert(text[j] == tag[j - c - 1]);
        }
    }
    lemma_first_at(text, '@', text.len() as int);
    // The first slash of the name is the one behind the registry.
    assert forall|j: int| 0 <= j < n implies name[j] != '/' by {
        assert(name[j] == i.registry[j]);
    }
    assert(name[n] == '/');
    lemma_first_at(name, '/', n);
    assert(name.take(n) =~= i.registry);
    assert(name.skip(n + 1) =~= i.repository);
}

/// Whether the name of a reference holds no `@`, and its tag no colon, slash or
/// `@`.
spec fn tag_is_plain(s: Seq<char>) -> bool {
    &&& first_at(s, '@') == s.len()
    &&& forall|j: int| 0 <= j < s.len() ==> s[j] != '@'
}

proof fn lemma_plain(s: Seq<char>)
    requires
        parsed(s) is Ok,
        parsed(s)->Ok_0.reference is Tag,
        tag_is_plain(s),
    ensures
        ({
            let i = parsed(s)->Ok_0;
            let tag = i.reference.text();
            &&& forall|j: int| 0 <= j < tag.len() ==> tag[j] != ':' && tag[j] != '@' && tag[j] != '/'
            &&& !tag.contains('/')
            &&& forall|j: int| 0 <= j < i.registry.len() ==> i.registry[j] != '@'
            &&& forall|j: int| 0 <= j < i.repository.len() ==> i.repository[j] != '@'
        }),
{
    let i = parsed(s)->Ok_0;
    let tag = i.reference.text();
    let (name, _) = name_and_ref(s);
    reveal_strlit("latest");
    reveal_strlit("docker.io");
    reveal_strlit("library/");
    reveal_strlit("registry-1.docker.io");
    lemma_last_at_bounds(s, ':');
    lemma_first_at_bounds(name, '/');
    match tag_colon(s) {
        Some(colon) => {
            assert forall|j: int| 0 <= j < tag.len() implies tag[j] != ':' && tag[j] != '@'
                && tag[j] != '/' by {
                assert(tag[j] == s[colon + 1 + j]);
                if tag[j] == '/' {
                    assert(s.skip(colon + 1)[j] == '/');
                }
            }
        },
        None => {
            assert forall|j: int| 0 <= j < tag.len() implies tag[j] != ':' && tag[j] != '@'
                && tag[j] != '/' by {}
        },
    }
    assert(!tag.contains('/'));
    assert forall|j: int| 0 <= j < name.len() implies name[j] != '@' by {
        assert(name[j] == s[j]);
    }
    let slash = first_at(name, '/');
    let (registry, repo) = raw_parts(name);
    if slash < name.len() && is_registry(name.take(slash)) {
        assert forall|j: int| 0 <= j < registry.len() implies registry[j] != '@' by {
            assert(registry[j] == name[j]);
        }
        assert forall|j: int| 0 <= j < repo.len() implies repo[j] != '@' by {
            assert(repo[j] == name[slash + 1 + j]);
        }
    }
    assert forall|j: int| 0 <= j < i.repository.len() implies i.repository[j] != '@' by {
        if registry == "docker.io"@ && !repo.contains('/') {
            if j >= 8 {
                assert(i.repository[j] == repo[j - 8]);
            }
        } else {
            assert(i.repository == repo);
        }
    }
}

/// A name without a registry is on Docker Hub, and its repository has a
/// namespace.
pub proof fn law_docker_hub_is_the_default(s: Seq<char>)
    requires
        parsed(s) is Ok,
        !name_and_ref(s).0.contains('/') || !is_registry(
            name_and_ref(s).0.take(first_at(name_and_ref(s).0, '/')),
        ),
    ensures
        parsed(s)->Ok_0.registry == "registry-1.docker.io"@,
        parsed(s)->Ok_0.repository.contains('/'),
{
    reveal_strlit("library/");
    let (name, _) = name_and_ref(s);
    let repository = parsed(s)->Ok_0.repository;
    lemma_first_at_bounds(name, '/');
    reveal_strlit("docker.io");
    if !name.contains('/') {
        assert(repository[7] == '/');
    }
}

/// Whether every colon of a name is that of a port: a slash follows.
pub open spec fn only_ports(name: Seq<char>) -> bool {
    forall|j: int|
        0 <= j < name.len() && #[trigger] name[j] == ':' ==> exists|k: int|
            j < k < name.len() && #[trigger] name[k] == '/'
}

proof fn lemma_no_tag(name: Seq<char>)
    requires
        only_ports(name),
    ensures
        tag_colon(name) is None,
{
    lemma_last_at_bounds(name, ':');
    let colon = last_at(name, ':');
    if colon >= 0 {
        let k = choose|k: int| colon < k < name.len() && #[trigger] name[k] == '/';
        assert(name.skip(colon + 1)[k - colon - 1] == '/');
    }
}

proof fn lemma_absent(s: Seq<char>, c: char)
    requires
        !s.contains(c),
    ensures
        first_at(s, c) == s.len(),
        forall|j: int| 0 <= j < s.len() ==> s[j] != c,
{
    assert forall|j: int| 0 <= j < s.len() implies s[j] != c by {
        if s[j] == c {
            assert(s.contains(c));
        }
    }
    lemma_first_at(s, c, s.len() as int);
}

proof fn lemma_first_behind(a: Seq<char>, c: char, b: Seq<char>)
    requires
        !a.contains(c),
    ensures
        first_at(a.push(c) + b, c) == a.len(),
        (a.push(c) + b).take(a.len() as int) == a,
        (a.push(c) + b).skip(a.len() + 1int) == b,
{
    let s = a.push(c) + b;
    lemma_absent(a, c);
    assert forall|j: int| 0 <= j < a.len() implies s[j] != c by {
        assert(s[j] == a[j]);
    }
    lemma_first_at(s, c, a.len() as int);
    assert(s.take(a.len() as int) =~= a);
    assert(s.skip(a.len() + 1int) =~= b);
}

/// What is behind the first `@` is the digest that a reference addresses, and
/// what is before it names the image.
pub proof fn law_digest_is_behind_the_at_sign(name: Seq<char>, digest: Seq<char>)
    requires
        name.len() > 0,
        !name.contains('@'),
    ensures
        parsed(name.push('@') + digest) is Ok,
        parsed(name.push('@') + digest)->Ok_0.reference == RefView::Digest(digest),
        only_ports(name) ==> {
            &&& parsed(name) is Ok
            &&& parsed(name.push('@') + digest)->Ok_0.registry == parsed(name)->Ok_0.registry
            &&& parsed(name.push('@') + digest)->Ok_0.repository == parsed(name)->Ok_0.repository
        },
{
    lemma_first_behind(name, '@', digest);
    lemma_absent(name, '@');
    if only_ports(name) {
        lemma_no_tag(name);
    }
}

/// What is behind the last colon is the tag that a reference addresses, and what
/// is before it names the image.
pub proof fn law_tag_is_behind_the_colon(name: Seq<char>, tag: Seq<char>)
    requires
        name.len() > 0,
        !name.contains('@'),
        !tag.contains('@'),
        !tag.contains(':'),
        !tag.contains('/'),
    ensures
        parsed(name.push(':') + tag) is Ok,
        parsed(name.push(':') + tag)->Ok_0.reference == RefView::Tag(tag),
        only_ports(name) ==> {
            &&& parsed(name) is Ok
            &&& parsed(name.push(':') + tag)->Ok_0.registry == parsed(name)->Ok_0.registry
            &&& parsed(name.push(':') + tag)->Ok_0.repository == parsed(name)->Ok_0.repository
        },
{
    let s = name.push(':') + tag;
    let n = name.len() as int;
    lemma_absent(name, '@');
    lemma_absent(tag, '@');
    lemma_absent(tag, ':');
    assert forall|j: int| 0 <= j < s.len() implies s[j] != '@' by {
        if j < n {
            assert(s[j] == name[j]);
        } else if j > n {
            assert(s[j] == tag[j - n - 1]);
        }
    }
    lemma_first_at(s, '@', s.len() as int);
    assert forall|j: int| n < j < s.len() implies s[j] != ':' by {
        assert(s[j] == tag[j - n - 1]);
    }
    lemma_last_at(s, ':', n);
    assert(s.skip(n + 1) =~= tag);
    assert(s.take(n) =~= name);
    if only_ports(name) {
        lemma_no_tag(name);
    }
}

/// A reference without a tag or digest addresses the tag `latest`. The colon of a
/// port starts no tag.
pub proof fn law_latest_is_the_default(name: Seq<char>)
    requires
        name.len() > 0,
        !name.contains('@'),
        only_ports(name),
    ensures
        parsed(name) is Ok,
        parsed(name)->Ok_0.reference == RefView::Tag("latest"@),
{
    lemma_absent(name, '@');
    lemma_no_tag(name);
}

/// A first component with a dot or a colon, or `localhost`, is the registry, and
/// the rest is the repository as it stands.
pub proof fn law_registry_is_the_first_component(host: Seq<char>, repo: Seq<char>)
    requires
        !host.contains('/') && !host.contains('@'),
        host.contains('.') || host.contains(':') || host == "localhost"@,
        host != "docker.io"@,
        !repo.contains('@') && !repo.contains(':'),
    ensures
        parsed(host.push('/') + repo) is Ok,
        parsed(host.push('/') + repo)->Ok_0.registry == host,
        parsed(host.push('/') + repo)->Ok_0.repository == repo,
{
    lemma_named(host, repo);
}

/// The parts of a name behind a first component without tag or digest.
proof fn lemma_named(first: Seq<char>, rest: Seq<char>)
    requires
        !first.contains('/') && !first.contains('@'),
        !rest.contains('@') && !rest.contains(':'),
    ensures
        first_at(first.push('/') + rest, '/') == first.len(),
        (first.push('/') + rest).take(first.len() as int) == first,
        (first.push('/') + rest).skip(first.len() + 1int) == rest,
        name_and_ref(first.push('/') + rest) == (first.push('/') + rest, None::<RefView>),
{
    let s = first.push('/') + rest;
    let n = first.len() as int;
    lemma_first_behind(first, '/', rest);
    lemma_absent(first, '@');
    lemma_absent(rest, '@');
    lemma_absent(rest, ':');
    assert forall|j: int| 0 <= j < s.len() implies s[j] != '@' by {
        if j < n {
            assert(s[j] == first[j]);
        } else if j > n {
            assert(s[j] == rest[j - n - 1]);
        }
    }
    lemma_first_at(s, '@', s.len() as int);
    assert(only_ports(s)) by {
        assert forall|j: int| 0 <= j < s.len() && #[trigger] s[j] == ':' implies exists|k: int|
            j < k < s.len() && #[trigger] s[k] == '/' by {
            if j > n {
                assert(s[j] == rest[j - n - 1]);
            }
            assert(s[n] == '/');
        }
    }
    lemma_no_tag(s);
}

/// A name on Docker Hub, spelled with its registry, is in the namespace
/// `library` where it has none.
pub proof fn law_docker_hub_can_be_spelled(repo: Seq<char>)
    requires
        !repo.contains('@') && !repo.contains(':'),
    ensures
        parsed("docker.io/"@ + repo) is Ok,
        parsed("docker.io/"@ + repo)->Ok_0.registry == "registry-1.docker.io"@,
        parsed("docker.io/"@ + repo)->Ok_0.repository == if repo.contains('/') {
            repo
        } else {
            "library/"@ + repo
        },
{
    reveal_strlit("docker.io");
    reveal_strlit("docker.io/");
    let hub = "docker.io"@;
    assert("docker.io/"@ =~= hub.push('/'));
    assert(hub[6] == '.');
    assert(!hub.contains('/') && !hub.contains('@')) by {
        assert forall|j: int| 0 <= j < hub.len() implies hub[j] != '/' && hub[j] != '@' by {}
    }
    lemma_named(hub, repo);
}

/// A name of one component is on Docker Hub, in the namespace `library`.
pub proof fn law_short_name_is_in_library(name: Seq<char>)
    requires
        name.len() > 0,
        !name.contains('/') && !name.contains('@') && !name.contains(':'),
    ensures
        parsed(name) is Ok,
        parsed(name)->Ok_0.registry == "registry-1.docker.io"@,
        parsed(name)->Ok_0.repository == "library/"@ + name,
{
    lemma_absent(name, '@');
    lemma_absent(name, ':');
    lemma_absent(name, '/');
    assert(only_ports(name));
    lemma_no_tag(name);
}

/// A name whose first component is no registry is on Docker Hub, as it stands.
pub proof fn law_namespace_is_on_docker_hub(space: Seq<char>, repo: Seq<char>)
    requires
        !space.contains('/') && !space.contains('@'),
        !space.contains('.') && !space.contains(':') && space != "localhost"@,
        !repo.contains('@') && !repo.contains(':'),
    ensures
        parsed(space.push('/') + repo) is Ok,
        parsed(space.push('/') + repo)->Ok_0.registry == "registry-1.docker.io"@,
        parsed(space.push('/') + repo)->Ok_0.repository == space.push('/') + repo,
{
    lemma_named(space, repo);
    assert((space.push('/') + repo)[space.len() as int] == '/');
    assert((space.push('/') + repo).contains('/'));
}

/// A reference is refused exactly where no name is before its tag or digest.
pub proof fn law_refused_iff_there_is_no_name(s: Seq<char>)
    ensures
        parsed(s) is Err <==> s.len() == 0 || s[0] == '@' || (s[0] == ':' && !s.contains('@')
            && !s.skip(1).contains(':') && !s.skip(1).contains('/')),
{
    lemma_first_at_bounds(s, '@');
    lemma_last_at_bounds(s, ':');
    if s.contains('@') {
        let j = choose|j: int| 0 <= j < s.len() && s[j] == '@';
        assert(first_at(s, '@') <= j);
    } else {
        lemma_absent(s, '@');
    }
    if s.len() > 0 && s[0] == ':' {
        if s.skip(1).contains(':') {
            let j = choose|j: int| 0 <= j < s.skip(1).len() && s.skip(1)[j] == ':';
            assert(s[j + 1] == ':');
            assert(last_at(s, ':') >= 1);
        } else {
            assert forall|j: int| 0 < j < s.len() implies s[j] != ':' by {
                if s[j] == ':' {
                    assert(s.skip(1)[j - 1] == ':');
                }
            }
            lemma_last_at(s, ':', 0);
        }
    }
    let (registry, repository) = qualified(name_and_ref(s).0);
}

} // verus!
