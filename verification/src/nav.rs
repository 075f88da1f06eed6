//! The pages a navigation file (such as `docs.json`) registers.

use vstd::prelude::*;
use vstd::string::*;
use crate::text::{chars_of, forward_slashes, string_of_chars, strings_view};

verus! {

/// A JSON document as far as navigation reads it. Numbers carry no value
/// here: nothing reads them.
pub enum JsonValue {
    Null,
    Bool(bool),
    Number,
    String(String),
    Array(Vec<JsonValue>),
    /// Members; keys are distinct.
    Object(Vec<(String, JsonValue)>),
}

#[verifier::external_type_specification]
#[verifier::external_body]
pub struct ExJsonDocument(serde_json::Value);

/// The document `serde_json::from_str::<serde_json::Value>` reads from
/// `text`, in the library's form, or `None` when the text is not JSON.
pub uninterp spec fn json_document(text: Seq<char>) -> Option<JsonValue>;

impl JsonValue {
    /// A `serde_json::Value` in the library's form, each variant to the
    /// variant of the same name (numbers lose their value). Used only by
    /// `parse_json`, whose contract covers the conversion.
    #[verifier::external_body]
    fn from_serde(v: &serde_json::Value) -> JsonValue {
        match v {
            serde_json::Value::Null => JsonValue::Null,
            serde_json::Value::Bool(b) => JsonValue::Bool(*b),
            serde_json::Value::Number(_) => JsonValue::Number,
            serde_json::Value::String(s) => JsonValue::String(s.clone()),
            serde_json::Value::Array(a) => JsonValue::Array(a.iter().map(JsonValue::from_serde).collect()),
            serde_json::Value::Object(m) => JsonValue::Object(m.iter().map(|(k, x)| (k.clone(), JsonValue::from_serde(x))).collect()),
        }
    }
}

/// Calls `serde_json::from_str::<serde_json::Value>` on `text` and converts
/// the document with `from_serde`. Claims that the outcome is what
/// `json_document` names for the text; the parse depends on the text alone.
#[verifier::external_body]
pub(crate) fn parse_json(text: &str) -> (r: Option<JsonValue>)
    ensures
        r == json_document(text@),
{
    serde_json::from_str::<serde_json::Value>(text).ok().map(|v| JsonValue::from_serde(&v))
}

/// Unicode `White_Space`, the set `char::is_whitespace` and `str::trim` use.
pub open spec fn is_white_space(c: char) -> bool {
    ||| '\u{9}' <= c <= '\u{d}'
    ||| c == ' '
    ||| c == '\u{85}'
    ||| c == '\u{a0}'
    ||| c == '\u{1680}'
    ||| '\u{2000}' <= c <= '\u{200a}'
    ||| c == '\u{2028}'
    ||| c == '\u{2029}'
    ||| c == '\u{202f}'
    ||| c == '\u{205f}'
    ||| c == '\u{3000}'
}

/// Number of leading white-space characters.
pub open spec fn leading_ws(s: Seq<char>) -> nat
    decreases s.len(),
{
    if s.len() > 0 && is_white_space(s[0]) {
        1 + leading_ws(s.drop_first())
    } else {
        0
    }
}

/// Number of trailing white-space characters.
pub open spec fn trailing_ws(s: Seq<char>) -> nat
    decreases s.len(),
{
    if s.len() > 0 && is_white_space(s.last()) {
        1 + trailing_ws(s.drop_last())
    } else {
        0
    }
}

/// `s` without leading and trailing white space.
pub open spec fn trimmed(s: Seq<char>) -> Seq<char> {
    let t = s.skip(leading_ws(s) as int);
    t.take(t.len() - trailing_ws(t))
}

/// `s` without any number of leading `./`.
pub open spec fn without_dot_slashes(s: Seq<char>) -> Seq<char>
    decreases s.len(),
{
    if s.len() >= 2 && s[0] == '.' && s[1] == '/' {
        without_dot_slashes(s.skip(2))
    } else {
        s
    }
}

/// `s` without a trailing `.mdx`, or else without a trailing `.md`.
pub open spec fn without_page_extension(s: Seq<char>) -> Seq<char> {
    if s.len() >= 4 && s.skip(s.len() - 4) == ".mdx"@ {
        s.take(s.len() - 4)
    } else if s.len() >= 3 && s.skip(s.len() - 3) == ".md"@ {
        s.take(s.len() - 3)
    } else {
        s
    }
}

/// A navigation entry as a page slug: trimmed, without leading `./`,
/// without `.mdx` or `.md`, with `/` separators.
pub open spec fn slug_of(s: Seq<char>) -> Seq<char> {
    forward_slashes(without_page_extension(without_dot_slashes(trimmed(s))))
}

fn is_white_space_exec(c: char) -> (r: bool)
    ensures
        r == is_white_space(c),
{
    ('\u{9}' <= c && c <= '\u{d}') || c == ' ' || c == '\u{85}' || c == '\u{a0}' || c == '\u{1680}'
        || ('\u{2000}' <= c && c <= '\u{200a}') || c == '\u{2028}' || c == '\u{2029}' || c == '\u{202f}'
        || c == '\u{205f}' || c == '\u{3000}'
}

proof fn lemma_leading_ws(s: Seq<char>, i: int)
    requires
        0 <= i <= s.len(),
        forall|k: int| 0 <= k < i ==> is_white_space(#[trigger] s[k]),
        i < s.len() ==> !is_white_space(s[i]),
    ensures
        leading_ws(s) == i,
    decreases i,
{
    if i > 0 {
        assert forall|k: int| 0 <= k < i - 1 implies is_white_space(#[trigger] s.drop_first()[k]) by {
            assert(s.drop_first()[k] == s[k + 1]);
        }
        if i - 1 < s.len() - 1 {
            assert(s.drop_first()[i - 1] == s[i]);
        }
        lemma_leading_ws(s.drop_first(), i - 1);
    }
}

proof fn lemma_trailing_ws(s: Seq<char>, i: int)
    requires
        0 <= i <= s.len(),
        forall|k: int| s.len() - i <= k < s.len() ==> is_white_space(#[trigger] s[k]),
        i < s.len() ==> !is_white_space(s[s.len() - 1 - i]),
    ensures
        trailing_ws(s) == i,
    decreases i,
{
    if i > 0 {
        assert forall|k: int| s.drop_last().len() - (i - 1) <= k < s.drop_last().len() implies is_white_space(#[trigger] s.drop_last()[k]) by {
            assert(s.drop_last()[k] == s[k]);
        }
        if i - 1 < s.len() - 1 {
            assert(s.drop_last()[s.drop_last().len() - 1 - (i - 1)] == s[s.len() - 1 - i]);
        }
        assert(s.last() == s[s.len() - 1]);
        lemma_trailing_ws(s.drop_last(), i - 1);
    }
}

proof fn lemma_without_dot_slashes_skip(s: Seq<char>, i: int)
    requires
        0 <= i <= s.len(),
        i % 2 == 0,
        forall|k: int| 0 <= k < i ==> #[trigger] s[k] == if k % 2 == 0 { '.' } else { '/' },
    ensures
        without_dot_slashes(s) == without_dot_slashes(s.skip(i)),
    decreases i,
{
    if i > 0 {
        assert(s[0] == '.' && s[1] == '/');
        let t = s.skip(2);
        assert forall|k: int| 0 <= k < i - 2 implies #[trigger] t[k] == if k % 2 == 0 { '.' } else { '/' } by {
            assert(t[k] == s[k + 2]);
            assert((k + 2) % 2 == k % 2);
        }
        lemma_without_dot_slashes_skip(t, i - 2);
        assert(t.skip(i - 2) =~= s.skip(i));
    } else {
        assert(s.skip(0) =~= s);
    }
}

/// Bounds of `cs` without leading and trailing white space.
fn trim_bounds(cs: &Vec<char>) -> (r: (usize, usize))
    ensures
        r.0 <= r.1 <= cs@.len(),
        trimmed(cs@) == cs@.subrange(r.0 as int, r.1 as int),
{
    let n = cs.len();
    let mut a: usize = 0;
    while a < n && is_white_space_exec(cs[a])
        invariant
            a <= n == cs@.len(),
            forall|k: int| 0 <= k < a ==> is_white_space(#[trigger] cs@[k]),
        decreases n - a,
    {
        a = a + 1;
    }
    proof {
        lemma_leading_ws(cs@, a as int);
    }
    let ghost t = cs@.skip(a as int);
    let mut b: usize = n;
    while b > a && is_white_space_exec(cs[b - 1])
        invariant
            a <= b <= n == cs@.len(),
            t == cs@.skip(a as int),
            forall|k: int| b <= k < n ==> is_white_space(#[trigger] cs@[k]),
        decreases b - a,
    {
        b = b - 1;
    }
    proof {
        assert forall|k: int| t.len() - (n - b) <= k < t.len() implies is_white_space(#[trigger] t[k]) by {
            assert(t[k] == cs@[k + a]);
        }
        if n - b < t.len() {
            assert(t[t.len() - 1 - (n - b)] == cs@[b - 1]);
        }
        lemma_trailing_ws(t, (n - b) as int);
        assert(trimmed(cs@) =~= cs@.subrange(a as int, b as int));
    }
    (a, b)
}

/// Start of `cs[a..b]` past its leading `./` pairs.
fn skip_dot_slashes(cs: &Vec<char>, a: usize, b: usize) -> (c: usize)
    requires
        a <= b <= cs@.len(),
    ensures
        a <= c <= b,
        without_dot_slashes(cs@.subrange(a as int, b as int)) == cs@.subrange(c as int, b as int),
{
    let mut c: usize = a;
    while b - c >= 2 && cs[c] == '.' && cs[c + 1] == '/'
        invariant
            a <= c <= b <= cs@.len(),
            (c - a) % 2 == 0,
            forall|k: int| a <= k < c ==> #[trigger] cs@[k] == if (k - a) % 2 == 0 { '.' } else { '/' },
        decreases b - c,
    {
        c = c + 2;
    }
    proof {
        let tr = cs@.subrange(a as int, b as int);
        assert forall|k: int| 0 <= k < c - a implies #[trigger] tr[k] == if k % 2 == 0 { '.' } else { '/' } by {
            assert(tr[k] == cs@[k + a]);
        }
        lemma_without_dot_slashes_skip(tr, (c - a) as int);
        let rest = tr.skip((c - a) as int);
        assert(rest =~= cs@.subrange(c as int, b as int));
        if rest.len() >= 2 && rest[0] == '.' && rest[1] == '/' {
            assert(cs@[c as int] == '.' && cs@[c + 1] == '/');
        }
        assert(without_dot_slashes(rest) == rest);
    }
    c
}

/// End of `cs[c..b]` before a trailing `.mdx`, or else `.md`.
fn page_extension_end(cs: &Vec<char>, c: usize, b: usize) -> (e: usize)
    requires
        c <= b <= cs@.len(),
    ensures
        c <= e <= b,
        without_page_extension(cs@.subrange(c as int, b as int)) == cs@.subrange(c as int, e as int),
{
    let ghost u = cs@.subrange(c as int, b as int);
    proof {
        reveal_strlit(".mdx");
        reveal_strlit(".md");
    }
    if b - c >= 4 && cs[b - 4] == '.' && cs[b - 3] == 'm' && cs[b - 2] == 'd' && cs[b - 1] == 'x' {
        assert(u.skip(u.len() - 4) =~= ".mdx"@);
        assert(u.take(u.len() - 4) =~= cs@.subrange(c as int, b - 4));
        b - 4
    } else if b - c >= 3 && cs[b - 3] == '.' && cs[b - 2] == 'm' && cs[b - 1] == 'd' {
        proof {
            if u.len() >= 4 {
                assert(u.skip(u.len() - 4)[3] == cs@[b - 1]);
            }
            assert(u.skip(u.len() - 3) =~= ".md"@);
            assert(u.take(u.len() - 3) =~= cs@.subrange(c as int, b - 3));
        }
        b - 3
    } else {
        proof {
            if u.len() >= 4 && u.skip(u.len() - 4) == ".mdx"@ {
                assert(u.skip(u.len() - 4)[0] == cs@[b - 4]);
                assert(u.skip(u.len() - 4)[1] == cs@[b - 3]);
                assert(u.skip(u.len() - 4)[2] == cs@[b - 2]);
                assert(u.skip(u.len() - 4)[3] == cs@[b - 1]);
            }
            if u.len() >= 3 && u.skip(u.len() - 3) == ".md"@ {
                assert(u.skip(u.len() - 3)[0] == cs@[b - 3]);
                assert(u.skip(u.len() - 3)[1] == cs@[b - 2]);
                assert(u.skip(u.len() - 3)[2] == cs@[b - 1]);
            }
        }
        b
    }
}

/// The slug a navigation entry names: trimmed, without leading `./`,
/// without a `.mdx` or `.md` extension, with `\` turned into `/`.
pub fn normalize_slug(s: &str) -> (r: String)
    ensures
        r@ == slug_of(s@),
{
    let cs = chars_of(s);
    let (a, b) = trim_bounds(&cs);
    let c = skip_dot_slashes(&cs, a, b);
    let e = page_extension_end(&cs, c, b);
    let mut out: Vec<char> = Vec::new();
    let mut i: usize = c;
    while i < e
        invariant
            c <= i <= e <= cs@.len(),
            out@ == forward_slashes(cs@.subrange(c as int, i as int)),
        decreases e - i,
    {
        let ch = cs[i];
        out.push(if ch == '\\' { '/' } else { ch });
        assert(cs@.subrange(c as int, i + 1) =~= cs@.subrange(c as int, i as int).push(ch));
        assert(out@ =~= forward_slashes(cs@.subrange(c as int, i + 1)));
        i = i + 1;
    }
    string_of_chars(&out)
}

/// Index of the first member named `key`, if any.
pub open spec fn member_index(m: Seq<(String, JsonValue)>, key: Seq<char>, from: int) -> Option<int>
    decreases m.len() - from,
{
    if from < 0 || from >= m.len() {
        None
    } else if m[from].0@ == key {
        Some(from)
    } else {
        member_index(m, key, from + 1)
    }
}

/// The pages a JSON value registers: in every object, each string of its
/// `pages` array (as a slug) and the pages of each object in that array;
/// and, recursively, the pages of every member value and array item.
pub open spec fn json_pages(v: JsonValue) -> Set<Seq<char>>
    decreases v, 0nat,
{
    match v {
        JsonValue::Object(m) => pages_member_pages(m@).union(members_pages(m@, m@.len())),
        JsonValue::Array(a) => items_pages(a@, a@.len()),
        _ => Set::empty(),
    }
}

/// The pages named by an object's `pages` member, when it is an array.
pub open spec fn pages_member_pages(m: Seq<(String, JsonValue)>) -> Set<Seq<char>>
    decreases m, 0nat,
{
    match member_index(m, "pages"@, 0) {
        Some(i) => if 0 <= i < m.len() {
            pages_list_pages(m[i].1)
        } else {
            Set::empty()
        },
        None => Set::empty(),
    }
}

/// The pages a `pages` value names, when it is an array.
pub open spec fn pages_list_pages(x: JsonValue) -> Set<Seq<char>>
    decreases x, 1nat,
{
    match x {
        JsonValue::Array(ps) => listed_pages(ps@, ps@.len()),
        _ => Set::empty(),
    }
}

/// The pages of the first `k` entries of a `pages` array: strings name
/// pages, objects are read for their own pages, anything else is ignored.
pub open spec fn listed_pages(ps: Seq<JsonValue>, k: nat) -> Set<Seq<char>>
    decreases ps, k,
{
    if k == 0 || k > ps.len() {
        Set::empty()
    } else {
        listed_pages(ps, (k - 1) as nat).union(match ps[k - 1] {
            JsonValue::String(s) => set![slug_of(s@)],
            JsonValue::Object(_) => json_pages(ps[k - 1]),
            _ => Set::empty(),
        })
    }
}

/// The pages of the values of the first `k` members.
pub open spec fn members_pages(m: Seq<(String, JsonValue)>, k: nat) -> Set<Seq<char>>
    decreases m, k,
{
    if k == 0 || k > m.len() {
        Set::empty()
    } else {
        members_pages(m, (k - 1) as nat).union(json_pages(m[k - 1].1))
    }
}

/// The pages of the first `k` array items.
pub open spec fn items_pages(a: Seq<JsonValue>, k: nat) -> Set<Seq<char>>
    decreases a, k,
{
    if k == 0 || k > a.len() {
        Set::empty()
    } else {
        items_pages(a, (k - 1) as nat).union(json_pages(a[k - 1]))
    }
}

/// A set of page slugs.
pub struct NavSlugs {
    pub slugs: Vec<String>,
}

impl View for NavSlugs {
    type V = Set<Seq<char>>;

    open spec fn view(&self) -> Set<Seq<char>> {
        strings_view(self.slugs@).to_set()
    }
}

impl NavSlugs {
    /// No slugs.
    pub fn new() -> (r: Self)
        ensures
            r@ == Set::<Seq<char>>::empty(),
    {
        let r = NavSlugs { slugs: Vec::new() };
        assert(r@ =~= Set::<Seq<char>>::empty());
        r
    }

    /// Adds a slug.
    pub fn insert(&mut self, slug: String)
        ensures
            final(self)@ == old(self)@.insert(slug@),
    {
        let ghost before = strings_view(self.slugs@);
        self.slugs.push(slug);
        proof {
            let after = strings_view(self.slugs@);
            assert(after =~= before.push(slug@));
            assert forall|x: Seq<char>| after.contains(x) <==> before.contains(x) || x == slug@ by {
                if after.contains(x) {
                    let k = choose|k: int| 0 <= k < after.len() && after[k] == x;
                    if k < before.len() {
                        assert(before[k] == x);
                    }
                }
                if before.contains(x) {
                    let k = choose|k: int| 0 <= k < before.len() && before[k] == x;
                    assert(after[k] == x);
                }
                if x == slug@ {
                    assert(after[before.len() as int] == x);
                }
            }
            assert(self@ =~= old(self)@.insert(slug@));
        }
    }

    /// Whether the slug is in the set.
    pub fn contains(&self, slug: &String) -> (r: bool)
        ensures
            r == self@.contains(slug@),
    {
        let ghost v = strings_view(self.slugs@);
        let mut i: usize = 0;
        while i < self.slugs.len()
            invariant
                i <= self.slugs@.len(),
                v == strings_view(self.slugs@),
                forall|k: int| 0 <= k < i ==> v[k] != slug@,
            decreases self.slugs.len() - i,
        {
            if self.slugs[i] == *slug {
                assert(v[i as int] == slug@);
                return true;
            }
            i = i + 1;
        }
        proof {
            if v.contains(slug@) {
                let k = choose|k: int| 0 <= k < v.len() && v[k] == slug@;
            }
        }
        false
    }
}

fn is_pages_key(k: &String) -> (r: bool)
    ensures
        r == (k@ == "pages"@),
{
    let pages = "pages".to_owned();
    *k == pages
}

/// Adds the pages a JSON value registers (see `json_pages`).
fn collect_pages(v: &JsonValue, set: &mut NavSlugs)
    ensures
        final(set)@ == old(set)@.union(json_pages(*v)),
    decreases v, 0nat,
{
    match v {
        JsonValue::Object(map) => {
            collect_pages_member(map, set);
            let ghost mid = set@;
            collect_members(map, set);
            assert(set@ =~= old(set)@.union(json_pages(*v)));
        },
        JsonValue::Array(arr) => {
            collect_items(arr, set);
        },
        _ => {
            assert(set@ =~= old(set)@.union(json_pages(*v)));
        },
    }
}

/// Adds the pages an object's `pages` member names.
fn collect_pages_member(map: &Vec<(String, JsonValue)>, set: &mut NavSlugs)
    ensures
        final(set)@ == old(set)@.union(pages_member_pages(map@)),
    decreases map, 0nat,
{
    let mut i: usize = 0;
    while i < map.len()
        invariant
            i <= map@.len(),
            member_index(map@, "pages"@, 0) == member_index(map@, "pages"@, i as int),
            set@ == old(set)@,
        decreases map.len() - i,
    {
        if is_pages_key(&map[i].0) {
            assert(member_index(map@, "pages"@, i as int) == Some(i as int));
            collect_pages_list(&map[i].1, set);
            return;
        }
        i = i + 1;
    }
    assert(member_index(map@, "pages"@, i as int) is None);
    assert(set@ =~= old(set)@.union(pages_member_pages(map@)));
}

/// Adds the pages a `pages` value names, when it is an array.
fn collect_pages_list(x: &JsonValue, set: &mut NavSlugs)
    ensures
        final(set)@ == old(set)@.union(pages_list_pages(*x)),
    decreases x, 1nat,
{
    match x {
        JsonValue::Array(pages) => collect_listed(pages, set),
        _ => {
            assert(set@ =~= old(set)@.union(pages_list_pages(*x)));
        },
    }
}

/// Adds the pages of a `pages` array: strings as slugs, objects for their
/// own pages.
fn collect_listed(pages: &Vec<JsonValue>, set: &mut NavSlugs)
    ensures
        final(set)@ == old(set)@.union(listed_pages(pages@, pages@.len())),
    decreases pages, 0nat,
{
    let mut i: usize = 0;
    assert(set@ =~= old(set)@.union(listed_pages(pages@, 0)));
    while i < pages.len()
        invariant
            i <= pages@.len(),
            set@ == old(set)@.union(listed_pages(pages@, i as nat)),
        decreases pages.len() - i,
    {
        let p = &pages[i];
        match p {
            JsonValue::String(s) => {
                let slug = normalize_slug(s.as_str());
                set.insert(slug);
            },
            JsonValue::Object(_) => {
                collect_pages(p, set);
            },
            _ => {},
        }
        assert(set@ =~= old(set)@.union(listed_pages(pages@, (i + 1) as nat)));
        i = i + 1;
    }
}

/// Adds the pages of every member value.
fn collect_members(map: &Vec<(String, JsonValue)>, set: &mut NavSlugs)
    ensures
        final(set)@ == old(set)@.union(members_pages(map@, map@.len())),
    decreases map, 0nat,
{
    let mut i: usize = 0;
    assert(set@ =~= old(set)@.union(members_pages(map@, 0)));
    while i < map.len()
        invariant
            i <= map@.len(),
            set@ == old(set)@.union(members_pages(map@, i as nat)),
        decreases map.len() - i,
    {
        collect_pages(&map[i].1, set);
        assert(set@ =~= old(set)@.union(members_pages(map@, (i + 1) as nat)));
        i = i + 1;
    }
}

/// Adds the pages of every array item.
fn collect_items(arr: &Vec<JsonValue>, set: &mut NavSlugs)
    ensures
        final(set)@ == old(set)@.union(items_pages(arr@, arr@.len())),
    decreases arr, 0nat,
{
    let mut i: usize = 0;
    assert(set@ =~= old(set)@.union(items_pages(arr@, 0)));
    while i < arr.len()
        invariant
            i <= arr@.len(),
            set@ == old(set)@.union(items_pages(arr@, i as nat)),
        decreases arr.len() - i,
    {
        collect_pages(&arr[i], set);
        assert(set@ =~= old(set)@.union(items_pages(arr@, (i + 1) as nat)));
        i = i + 1;
    }
}

/// The slugs of every page a navigation document registers.
pub fn nav_slugs(doc: &JsonValue) -> (r: NavSlugs)
    ensures
        r@ == json_pages(*doc),
{
    let mut set = NavSlugs::new();
    collect_pages(doc, &mut set);
    assert(set@ =~= json_pages(*doc));
    set
}

/// The slugs a navigation file registers, read from its text; `None` when
/// the text is not JSON.
pub fn nav_slugs_from_json(text: &str) -> (r: Option<NavSlugs>)
    ensures
        match json_document(text@) {
            Some(doc) => r matches Some(s) && s@ == json_pages(doc),
            None => r is None,
        },
{
    match parse_json(text) {
        Some(doc) => Some(nav_slugs(&doc)),
        None => None,
    }
}

proof fn lemma_items_pages_has(a: Seq<JsonValue>, n: nat, k: int)
    requires
        0 <= k < n <= a.len(),
    ensures
        json_pages(a[k]).subset_of(items_pages(a, n)),
    decreases n,
{
    if k < n - 1 {
        lemma_items_pages_has(a, (n - 1) as nat, k);
    }
}

proof fn lemma_listed_pages_has(ps: Seq<JsonValue>, n: nat, j: int, s: String)
    requires
        0 <= j < n <= ps.len(),
        ps[j] == JsonValue::String(s),
    ensures
        listed_pages(ps, n).contains(slug_of(s@)),
    decreases n,
{
    if j < n - 1 {
        lemma_listed_pages_has(ps, (n - 1) as nat, j, s);
    }
}

proof fn lemma_member_index_first(m: Seq<(String, JsonValue)>, key: Seq<char>, from: int, i: int)
    requires
        0 <= from <= i < m.len(),
        m[i].0@ == key,
        forall|j: int| from <= j < i ==> (#[trigger] m[j]).0@ != key,
    ensures
        member_index(m, key, from) == Some(i),
    decreases i - from,
{
    if from < i {
        lemma_member_index_first(m, key, from + 1, i);
    }
}

/// Every item of a JSON array registers its pages in the array: the pages of
/// an array include those of each of its items, not only the first.
pub proof fn law_array_registers_every_item(a: Vec<JsonValue>, k: int)
    requires
        0 <= k < a@.len(),
    ensures
        json_pages(a@[k]).subset_of(json_pages(JsonValue::Array(a))),
{
    lemma_items_pages_has(a@, a@.len(), k);
}

/// A string listed in the `pages` array of an object (its first member of
/// that name) is registered, as its slug, by the object.
pub proof fn law_listed_page_is_registered(m: Vec<(String, JsonValue)>, i: int, ps: Vec<JsonValue>, j: int, s: String)
    requires
        0 <= i < m@.len(),
        m@[i].0@ == "pages"@,
        forall|q: int| 0 <= q < i ==> (#[trigger] m@[q]).0@ != "pages"@,
        m@[i].1 == JsonValue::Array(ps),
        0 <= j < ps@.len(),
        ps@[j] == JsonValue::String(s),
    ensures
        json_pages(JsonValue::Object(m)).contains(slug_of(s@)),
{
    lemma_member_index_first(m@, "pages"@, 0, i);
    lemma_listed_pages_has(ps@, ps@.len(), j, s);
    assert(pages_list_pages(m@[i].1) == listed_pages(ps@, ps@.len()));
    assert(pages_member_pages(m@) == pages_list_pages(m@[i].1));
    assert(pages_member_pages(m@).contains(slug_of(s@)));
}

} // verus!
