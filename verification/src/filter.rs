//! The denylist: entries loaded from configured sources, and the
//! matcher that decides whether a queried name is blocked.
//!
//! A source string is classified here (local file, HTTP URL, or an
//! ignored scheme); fetching its contents is I/O and happens outside
//! the library, which is then handed the plain bytes to parse.

use vstd::prelude::*;
use vstd::std_specs::cmp::PartialEqSpec;
use crate::packet::DnsError;

verus! {

/// One denylist entry: a redirect address and the domain it blocks,
/// as the two tokens of a source line.  Matching consults the domain
/// alone; the address is kept from the source but never read.
#[derive(Debug, Clone, PartialEq, Eq, Hash)]
pub struct Filter {
    pub address: Vec<u8>,
    pub domain: Vec<u8>,
}

/// Spec-level entry: the two token byte strings.
pub struct FilterModel {
    pub address: Seq<u8>,
    pub domain: Seq<u8>,
}

impl View for Filter {
    type V = FilterModel;

    open spec fn view(&self) -> FilterModel {
        FilterModel { address: self.address@, domain: self.domain@ }
    }
}

impl DeepView for Filter {
    type V = FilterModel;

    open spec fn deep_view(&self) -> FilterModel {
        self.view()
    }
}

impl Filter {
    /// Whether this entry blocks the given name: exact, byte-for-byte
    /// equality of the domain component only.
    pub fn is_domain_matching(&self, in_domain: &Vec<u8>) -> (r: bool)
        ensures
            r == (self.domain@ == in_domain@),
    {
        let r = self.domain == *in_domain;
        proof {
            if r {
                assert forall|k: int|
                    0 <= k < self.domain@.len() implies self.domain@[k] == in_domain@[k] by {
                    assert(self.domain[k].eq_spec(&in_domain[k]));
                }
                assert(self.domain@ =~= in_domain@);
            }
            if !r && self.domain@ == in_domain@ {
                assert(self.domain.eq_spec(in_domain)) by {
                    assert(self.domain@.len() == in_domain@.len());
                    assert(forall|k: int|
                        0 <= k < self.domain@.len() ==> self.domain@[k] == #[trigger] in_domain@[k]);
                }
                assert(false);
            }
        }
        r
    }
}

/// Whether some entry of the list blocks the queried name.
pub open spec fn spec_should_filter(domain: Seq<u8>, filter_list: Seq<FilterModel>) -> bool {
    exists|i: int| 0 <= i < filter_list.len() && #[trigger] filter_list[i].domain == domain
}

/// Law (filter matching): returns true exactly when some entry's
/// domain equals the queried name, byte for byte.
pub fn should_filter(domain: &Vec<u8>, filter_list: &Vec<Filter>) -> (r: bool)
    ensures
        r == spec_should_filter(domain@, filter_list.deep_view()),
{
    let mut i: usize = 0;
    while i < filter_list.len()
        invariant
            i <= filter_list@.len(),
            filter_list.deep_view().len() == filter_list@.len(),
            forall|j: int|
                0 <= j < i ==> #[trigger] filter_list.deep_view()[j].domain != domain@,
        decreases filter_list@.len() - i,
    {
        if filter_list[i].is_domain_matching(domain) {
            proof {
                assert(filter_list.deep_view()[i as int].domain == domain@);
            }
            return true;
        }
        i = i + 1;
    }
    false
}

/// What a denylist source string is: a `file://` URL, an `http://` or
/// `https://` URL, a URL with some other scheme (ignored with a
/// diagnostic), or no URL at all — then it is tried as a plain path.
#[derive(Debug, Clone, Copy, PartialEq, Eq, Structural)]
pub enum SourceKind {
    FileUrl,
    HttpUrl,
    UnsupportedUrl,
    PlainPath,
}

/// The scheme of `s` as the `url` crate parses it, as plain bytes;
/// `None` when `s` is not an absolute URL.
pub uninterp spec fn scheme_of(s: Seq<char>) -> Option<Seq<u8>>;

/// Relies on url::Url::parse and url::Url::scheme: the scheme of an
/// absolute URL (already lower-cased by the parser), or None when the
/// string does not parse as a URL.
#[verifier::external_body]
fn url_scheme(source: &str) -> (r: Option<Vec<u8>>)
    ensures
        match r {
            Some(v) => scheme_of(source@) == Some(v@),
            None => scheme_of(source@) is None,
        },
{
    match url::Url::parse(source) {
        Ok(u) => Some(u.scheme().as_bytes().to_vec()),
        Err(_) => None,
    }
}

/// The bytes of `file`.
pub open spec fn file_scheme() -> Seq<u8> {
    seq![102u8, 105u8, 108u8, 101u8]
}

/// The bytes of `http`.
pub open spec fn http_scheme() -> Seq<u8> {
    seq![104u8, 116u8, 116u8, 112u8]
}

/// The bytes of `https`.
pub open spec fn https_scheme() -> Seq<u8> {
    seq![104u8, 116u8, 116u8, 112u8, 115u8]
}

/// How a source string is classified, given its parsed scheme.
pub open spec fn spec_classify(scheme: Option<Seq<u8>>) -> SourceKind {
    match scheme {
        Option::None => SourceKind::PlainPath,
        Option::Some(s) => if s == file_scheme() {
            SourceKind::FileUrl
        } else if s == http_scheme() || s == https_scheme() {
            SourceKind::HttpUrl
        } else {
            SourceKind::UnsupportedUrl
        },
    }
}

/// Classifies one denylist source string by its URL scheme.
pub fn classify_source(source: &String) -> (r: SourceKind)
    ensures
        r == spec_classify(scheme_of(source@)),
{
    match url_scheme(source.as_str()) {
        Option::None => SourceKind::PlainPath,
        Option::Some(v) => {
            let is_file = v.len() == 4 && v[0] == 102 && v[1] == 105 && v[2] == 108 && v[3] == 101;
            let is_http = v.len() == 4 && v[0] == 104 && v[1] == 116 && v[2] == 116 && v[3] == 112;
            let is_https = v.len() == 5 && v[0] == 104 && v[1] == 116 && v[2] == 116 && v[3] == 112
                && v[4] == 115;
            proof {
                if is_file {
                    assert(v@ =~= file_scheme());
                }
                if is_http {
                    assert(v@ =~= http_scheme());
                }
                if is_https {
                    assert(v@ =~= https_scheme());
                }
                if v@ == file_scheme() {
                    assert(is_file);
                }
                if v@ == http_scheme() {
                    assert(is_http);
                }
                if v@ == https_scheme() {
                    assert(is_https);
                }
            }
            if is_file {
                SourceKind::FileUrl
            } else if is_http || is_https {
                SourceKind::HttpUrl
            } else {
                SourceKind::UnsupportedUrl
            }
        },
    }
}

/// The newline byte, the line separator of denylist text.
pub const NL: u8 = 10;

/// Whether a byte is ASCII whitespace, the token separator of a
/// denylist line.
pub open spec fn is_space(b: u8) -> bool {
    b == 32 || b == 9 || b == 10 || b == 11 || b == 12 || b == 13
}

/// The lines of a text: the segments between newline bytes, in order.
/// Never empty; an empty text is one empty line.
pub open spec fn nl_split(s: Seq<u8>) -> Seq<Seq<u8>>
    decreases s.len(),
{
    if s.len() == 0 {
        seq![Seq::empty()]
    } else if s[0] == NL {
        seq![Seq::<u8>::empty()] + nl_split(s.drop_first())
    } else {
        let r = nl_split(s.drop_first());
        r.update(0, seq![s[0]] + r[0])
    }
}

/// Splitting on newlines never yields an empty line list.
pub proof fn lemma_nl_split_nonempty(s: Seq<u8>)
    ensures
        nl_split(s).len() >= 1,
    decreases s.len(),
{
    if s.len() != 0 && s[0] != NL {
        lemma_nl_split_nonempty(s.drop_first());
    }
}

/// Where the first newline of `s` stands, as found by a left-to-right
/// scan: the bytes before it are the first line.
pub proof fn lemma_nl_split_first(s: Seq<u8>, k: int)
    requires
        0 <= k <= s.len(),
        forall|i: int| 0 <= i < k ==> s[i] != NL,
        k == s.len() || s[k] == NL,
    ensures
        k == s.len() ==> nl_split(s) == seq![s],
        k < s.len() ==> nl_split(s) == seq![s.take(k)] + nl_split(s.skip(k + 1)),
    decreases k,
{
    if k == 0 {
        if s.len() == 0 {
            assert(nl_split(s) =~~= seq![s]);
        } else {
            assert(s[0] == NL);
            assert(s.take(0) =~= Seq::<u8>::empty());
            assert(s.skip(1) =~= s.drop_first());
            assert(nl_split(s) =~= seq![s.take(0)] + nl_split(s.skip(1)));
        }
    } else {
        let t = s.drop_first();
        assert(forall|i: int| 0 <= i < k - 1 ==> t[i] != NL);
        lemma_nl_split_first(t, k - 1);
        let r = nl_split(t);
        lemma_nl_split_nonempty(t);
        if k == s.len() {
            assert(r == seq![t]);
            assert(r[0] == t);
            assert(nl_split(s) == r.update(0, seq![s[0]] + r[0]));
            assert(seq![s[0]] + t =~= s);
            assert(nl_split(s) =~~= seq![s]);
        } else {
            assert(r == seq![t.take(k - 1)] + nl_split(t.skip(k)));
            assert(r[0] == t.take(k - 1));
            assert(seq![s[0]] + t.take(k - 1) =~= s.take(k));
            assert(t.skip(k) =~= s.skip(k + 1));
            assert(nl_split(s) =~= seq![s.take(k)] + nl_split(s.skip(k + 1)));
        }
    }
}

/// The whitespace-separated tokens of a line, in order: the maximal
/// runs of non-whitespace bytes.
pub open spec fn tokens_of(l: Seq<u8>) -> Seq<Seq<u8>>
    decreases l.len(),
{
    if l.len() == 0 {
        Seq::empty()
    } else if is_space(l[0]) {
        tokens_of(l.drop_first())
    } else if l.len() == 1 || is_space(l[1]) {
        seq![seq![l[0]]] + tokens_of(l.drop_first())
    } else {
        let r = tokens_of(l.drop_first());
        r.update(0, seq![l[0]] + r[0])
    }
}

/// A line of whitespace alone has no tokens.
pub proof fn lemma_tokens_all_space(l: Seq<u8>)
    requires
        forall|i: int| 0 <= i < l.len() ==> is_space(#[trigger] l[i]),
    ensures
        tokens_of(l) == Seq::<Seq<u8>>::empty(),
    decreases l.len(),
{
    if l.len() > 0 {
        lemma_tokens_all_space(l.drop_first());
    }
}

/// Leading whitespace does not change a line's tokens.
pub proof fn lemma_tokens_space_prefix(l: Seq<u8>, a: int)
    requires
        0 <= a <= l.len(),
        forall|i: int| 0 <= i < a ==> is_space(#[trigger] l[i]),
    ensures
        tokens_of(l) == tokens_of(l.skip(a)),
    decreases a,
{
    if a == 0 {
        assert(l.skip(0) =~= l);
    } else {
        let t = l.drop_first();
        assert(forall|i: int| 0 <= i < a - 1 ==> is_space(#[trigger] t[i]));
        lemma_tokens_space_prefix(t, a - 1);
        assert(t.skip(a - 1) =~= l.skip(a));
    }
}

/// A maximal run of non-whitespace at the start of a line is its
/// first token.
pub proof fn lemma_tokens_first(l: Seq<u8>, b: int)
    requires
        1 <= b <= l.len(),
        forall|i: int| 0 <= i < b ==> !is_space(#[trigger] l[i]),
        b == l.len() || is_space(l[b]),
    ensures
        tokens_of(l) == seq![l.take(b)] + tokens_of(l.skip(b)),
    decreases b,
{
    let t = l.drop_first();
    if b == 1 {
        if l.len() == 1 {
            assert(t =~= Seq::<u8>::empty());
            assert(l.skip(1) =~= t);
            assert(l.take(1) =~= seq![l[0]]);
            assert(tokens_of(l) =~~= seq![l.take(1)] + tokens_of(l.skip(1)));
        } else {
            assert(is_space(l[1]));
            assert(l.skip(1) =~= t);
            assert(l.take(1) =~= seq![l[0]]);
            assert(tokens_of(l) =~~= seq![l.take(1)] + tokens_of(l.skip(1)));
        }
    } else {
        assert(!is_space(l[1]));
        assert(forall|i: int| 0 <= i < b - 1 ==> !is_space(#[trigger] t[i]));
        if b < l.len() {
            assert(t[b - 1] == l[b as int]);
        }
        lemma_tokens_first(t, b - 1);
        let r = tokens_of(t);
        assert(r == seq![t.take(b - 1)] + tokens_of(t.skip(b - 1)));
        assert(r[0] == t.take(b - 1));
        assert(tokens_of(l) == r.update(0, seq![l[0]] + r[0]));
        assert(seq![l[0]] + t.take(b - 1) =~= l.take(b));
        assert(t.skip(b - 1) =~= l.skip(b));
        assert(tokens_of(l) =~~= seq![l.take(b)] + tokens_of(l.skip(b)));
    }
}

/// The entries contributed by a list of lines: one entry per line
/// whose tokens are exactly an address and a domain, in line order.
pub open spec fn entries_of_lines(ls: Seq<Seq<u8>>) -> Seq<FilterModel>
    decreases ls.len(),
{
    if ls.len() == 0 {
        Seq::empty()
    } else {
        let toks = tokens_of(ls[0]);
        let rest = entries_of_lines(ls.drop_first());
        if toks.len() == 2 {
            seq![FilterModel { address: toks[0], domain: toks[1] }] + rest
        } else {
            rest
        }
    }
}

/// The entry list distributes over line-list concatenation.
pub proof fn lemma_entries_concat(a: Seq<Seq<u8>>, b: Seq<Seq<u8>>)
    ensures
        entries_of_lines(a + b) == entries_of_lines(a) + entries_of_lines(b),
    decreases a.len(),
{
    if a.len() == 0 {
        assert(a + b =~= b);
        assert(entries_of_lines(a + b) =~= entries_of_lines(a) + entries_of_lines(b));
    } else {
        assert((a + b).drop_first() =~= a.drop_first() + b);
        lemma_entries_concat(a.drop_first(), b);
        assert(entries_of_lines(a + b) =~= entries_of_lines(a) + entries_of_lines(b));
    }
}

/// The denylist entries of a text: line by line, each line of exactly
/// two whitespace-separated tokens contributes `{address, domain}`.
pub open spec fn entries_of(content: Seq<u8>) -> Seq<FilterModel> {
    entries_of_lines(nl_split(content))
}

/// Appending one element adds exactly it to the members.
pub proof fn lemma_contains_snoc(s: Seq<FilterModel>, x: FilterModel, e: FilterModel)
    ensures
        (s + seq![x]).contains(e) <==> (s.contains(e) || e == x),
{
    if s.contains(e) {
        let i = choose|i: int| 0 <= i < s.len() && s[i] == e;
        assert((s + seq![x])[i] == e);
    }
    if e == x {
        assert((s + seq![x])[s.len() as int] == e);
    }
    if (s + seq![x]).contains(e) {
        let i = choose|i: int| 0 <= i < (s + seq![x]).len() && (s + seq![x])[i] == e;
        if i < s.len() {
            assert(s[i] == e);
        }
    }
}

/// No two entries of the list are equal.
pub open spec fn unique_entries(l: Seq<FilterModel>) -> bool {
    forall|i: int, j: int| 0 <= i < j < l.len() ==> #[trigger] l[i] != #[trigger] l[j]
}

/// Whether two byte vectors hold the same bytes.
fn bytes_eq(a: &Vec<u8>, b: &Vec<u8>) -> (r: bool)
    ensures
        r == (a@ == b@),
{
    let r = *a == *b;
    proof {
        if r {
            assert forall|k: int| 0 <= k < a@.len() implies a@[k] == b@[k] by {
                assert(a[k].eq_spec(&b[k]));
            }
            assert(a@ =~= b@);
        }
        if !r && a@ == b@ {
            assert(a.eq_spec(b)) by {
                assert(a@.len() == b@.len());
                assert(forall|k: int| 0 <= k < a@.len() ==> a@[k] == #[trigger] b@[k]);
            }
            assert(false);
        }
    }
    r
}

/// Whether an equal entry already stands in the list.
fn contains_entry(list: &Vec<Filter>, f: &Filter) -> (r: bool)
    ensures
        r == list.deep_view().contains(f@),
{
    let mut i: usize = 0;
    while i < list.len()
        invariant
            i <= list@.len(),
            list.deep_view().len() == list@.len(),
            forall|j: int| 0 <= j < i ==> #[trigger] list.deep_view()[j] != f@,
        decreases list@.len() - i,
    {
        if bytes_eq(&list[i].address, &f.address) && bytes_eq(&list[i].domain, &f.domain) {
            proof {
                assert(list.deep_view()[i as int] == f@);
            }
            return true;
        }
        i = i + 1;
    }
    proof {
        if list.deep_view().contains(f@) {
            let j = choose|j: int|
                0 <= j < list.deep_view().len() && list.deep_view()[j] == f@;
            assert(false);
        }
    }
    false
}

/// Whether one byte is ASCII whitespace.
fn is_space_byte(b: u8) -> (r: bool)
    ensures
        r == is_space(b),
{
    b == 32 || b == 9 || b == 10 || b == 11 || b == 12 || b == 13
}

/// The position of the next whitespace byte at or after `start`, or
/// `end` when none remains.
#[verifier::loop_isolation(false)]
fn scan_token_end(content: &Vec<u8>, start: usize, end: usize) -> (r: usize)
    requires
        start <= end <= content@.len(),
    ensures
        start <= r <= end,
        forall|i: int| start <= i < r ==> !is_space(#[trigger] content@[i]),
        r < end ==> is_space(content@[r as int]),
{
    let mut p: usize = start;
    while p < end
        invariant
            start <= p <= end,
            forall|i: int| start <= i < p ==> !is_space(#[trigger] content@[i]),
        decreases end - p,
    {
        if is_space_byte(content[p]) {
            return p;
        }
        p = p + 1;
    }
    p
}

/// The position of the next non-whitespace byte at or after `start`,
/// or `end` when none remains.
#[verifier::loop_isolation(false)]
fn scan_space_end(content: &Vec<u8>, start: usize, end: usize) -> (r: usize)
    requires
        start <= end <= content@.len(),
    ensures
        start <= r <= end,
        forall|i: int| start <= i < r ==> is_space(#[trigger] content@[i]),
        r < end ==> !is_space(content@[r as int]),
{
    let mut p: usize = start;
    while p < end
        invariant
            start <= p <= end,
            forall|i: int| start <= i < p ==> is_space(#[trigger] content@[i]),
        decreases end - p,
    {
        if !is_space_byte(content[p]) {
            return p;
        }
        p = p + 1;
    }
    p
}

/// Copies the whitespace-separated tokens of `content[start..end]`.
#[verifier::loop_isolation(false)]
fn tokenize(content: &Vec<u8>, start: usize, end: usize) -> (r: Vec<Vec<u8>>)
    requires
        start <= end <= content@.len(),
    ensures
        r.deep_view() == tokens_of(content@.subrange(start as int, end as int)),
{
    let ghost line = content@.subrange(start as int, end as int);
    let mut toks: Vec<Vec<u8>> = Vec::new();
    let mut p: usize = start;
    proof {
        assert(line.skip(0) =~= line);
        assert(toks.deep_view() =~= Seq::<Seq<u8>>::empty());
        assert(Seq::<Seq<u8>>::empty() + tokens_of(line) =~= tokens_of(line));
    }
    while p < end
        invariant
            start <= p <= end,
            tokens_of(line) == toks.deep_view() + tokens_of(line.skip(p - start)),
        decreases end - p,
    {
        // skip whitespace before the next token
        let ghost p0 = p;
        let t0 = scan_space_end(content, p, end);
        proof {
            let rem = line.skip(p0 - start);
            assert(forall|i: int|
                0 <= i < t0 - p0 ==> is_space(#[trigger] rem[i]));
            lemma_tokens_space_prefix(rem, t0 - p0);
            assert(rem.skip(t0 - p0) =~= line.skip(t0 - start));
        }
        if t0 == end {
            proof {
                assert(line.skip(end - start) =~= Seq::<u8>::empty());
                assert(tokens_of(Seq::<u8>::empty()) == Seq::<Seq<u8>>::empty());
                assert(toks.deep_view() + Seq::<Seq<u8>>::empty() =~= toks.deep_view());
            }
            return toks;
        }
        // scan the token itself
        let te = scan_token_end(content, t0, end);
        proof {
            assert(!is_space(content@[t0 as int]));
            assert(te > t0);
        }
        // copy the token bytes
        let mut tok: Vec<u8> = Vec::new();
        let mut k: usize = t0;
        while k < te
            invariant
                t0 <= k <= te <= end,
                tok@ == content@.subrange(t0 as int, k as int),
            decreases te - k,
        {
            tok.push(content[k]);
            proof {
                assert(tok@ =~= content@.subrange(t0 as int, k + 1));
            }
            k = k + 1;
        }
        let ghost prev = toks.deep_view();
        let ghost tokv = tok@;
        toks.push(tok);
        proof {
            let rem = line.skip(t0 - start);
            assert(forall|i: int|
                0 <= i < te - t0 ==> rem[i] == content@[t0 + i]);
            assert(forall|i: int| 0 <= i < te - t0 ==> !is_space(#[trigger] rem[i]));
            if te < end {
                assert(rem[te - t0] == content@[te as int]);
                assert(is_space(rem[te - t0]));
            }
            lemma_tokens_first(rem, te - t0);
            assert(rem.take(te - t0) =~= content@.subrange(t0 as int, te as int));
            assert(tokv =~= rem.take(te - t0));
            assert(rem.skip(te - t0) =~= line.skip(te - start));
            assert(toks.deep_view() =~~= prev + seq![tokv]);
            assert((prev + seq![tokv]) + tokens_of(line.skip(te - start)) =~= prev + (seq![tokv]
                + tokens_of(line.skip(te - start))));
        }
        p = te;
    }
    proof {
        assert(line.skip(p - start) =~= Seq::<u8>::empty());
        assert(tokens_of(Seq::<u8>::empty()) == Seq::<Seq<u8>>::empty());
        assert(toks.deep_view() + Seq::<Seq<u8>>::empty() =~= toks.deep_view());
    }
    toks
}

/// The ordered denylist source strings, as configured.
pub struct FilterList {
    pub block_list_sources: Vec<String>,
}

/// A byte vector's deep view is its view.
pub proof fn lemma_bytes_deep_view(v: Vec<u8>)
    ensures
        v.deep_view() == v@,
{
    assert(v.deep_view() =~= v@);
}

impl FilterList {
    /// A list over the given source strings.
    pub fn new(block_list: Vec<String>) -> (r: FilterList)
        ensures
            r.block_list_sources == block_list,
    {
        FilterList { block_list_sources: block_list }
    }

    /// Parses denylist text, line by line: a line of exactly two
    /// whitespace-separated tokens contributes the entry
    /// `{address, domain}`; every other line is skipped silently.
    /// New entries join the list unless an equal entry already stands
    /// in it (set semantics); the entries already there stay in place.
    #[verifier::loop_isolation(false)]
    #[verifier::rlimit(100)]
    pub fn parse_block_list_content(
        &self,
        complete_block_list: &mut Vec<Filter>,
        content: Vec<u8>,
    ) -> (r: Result<(), DnsError>)
        ensures
            r is Ok,
            final(complete_block_list).deep_view().len() >= old(
                complete_block_list,
            ).deep_view().len(),
            final(complete_block_list).deep_view().subrange(
                0,
                old(complete_block_list).deep_view().len() as int,
            ) == old(complete_block_list).deep_view(),
            forall|e: FilterModel| #[trigger]
                final(complete_block_list).deep_view().contains(e) <==> (old(
                    complete_block_list,
                ).deep_view().contains(e) || entries_of(content@).contains(e)),
            unique_entries(old(complete_block_list).deep_view()) ==> unique_entries(
                final(complete_block_list).deep_view(),
            ),
    {
        let ghost old_view = old(complete_block_list).deep_view();
        let ghost all_lines = nl_split(content@);
        let ghost mut ln: int = 0;
        let mut i: usize = 0;
        proof {
            lemma_nl_split_nonempty(content@);
            assert(content@.skip(0) =~= content@);
            assert(all_lines.skip(0) =~= all_lines);
            assert(all_lines.take(0) =~= Seq::<Seq<u8>>::empty());
            assert(entries_of_lines(Seq::<Seq<u8>>::empty()) == Seq::<FilterModel>::empty());
            assert(complete_block_list.deep_view().subrange(0, old_view.len() as int) =~= old_view);
        }
        loop
            invariant
                i <= content@.len(),
                0 <= ln < all_lines.len(),
                nl_split(content@.skip(i as int)) == all_lines.skip(ln),
                complete_block_list.deep_view().len() >= old_view.len(),
                complete_block_list.deep_view().subrange(0, old_view.len() as int) == old_view,
                forall|e: FilterModel| #[trigger]
                    complete_block_list.deep_view().contains(e) <==> (old_view.contains(e)
                        || entries_of_lines(all_lines.take(ln)).contains(e)),
                unique_entries(old_view) ==> unique_entries(complete_block_list.deep_view()),
            decreases content@.len() - i,
        {
            // find the end of the current line
            let mut j: usize = i;
            while j < content.len() && content[j] != NL
                invariant
                    i <= j <= content@.len(),
                    forall|k: int| i <= k < j ==> content@[k] != NL,
                decreases content@.len() - j,
            {
                j = j + 1;
            }
            let ghost rem = content@.skip(i as int);
            let ghost line = content@.subrange(i as int, j as int);
            proof {
                assert forall|k: int| 0 <= k < j - i implies rem[k] != NL by {
                    assert(rem[k] == content@[i + k]);
                }
                if (j as int) < content@.len() {
                    assert(rem[j - i] == content@[j as int]);
                }
                lemma_nl_split_first(rem, j - i);
                assert(rem.take(j - i) =~= line);
                assert(all_lines.skip(ln)[0] == all_lines[ln]);
                assert(all_lines[ln] == line);
            }
            let toks = tokenize(&content, i, j);
            // bookkeeping for this line's contribution
            proof {
                assert(all_lines.take(ln + 1) =~= all_lines.take(ln) + seq![line]);
                lemma_entries_concat(all_lines.take(ln), seq![line]);
                assert(seq![line].drop_first() =~= Seq::<Seq<u8>>::empty());
                assert(entries_of_lines(seq![line]) == (if tokens_of(line).len() == 2 {
                    seq![
                        FilterModel {
                            address: tokens_of(line)[0],
                            domain: tokens_of(line)[1],
                        },
                    ]
                } else {
                    Seq::<FilterModel>::empty()
                }));
            }
            if toks.len() == 2 {
                let mut toks = toks;
                let domain = toks.remove(1);
                let address = toks.remove(0);
                proof {
                    lemma_bytes_deep_view(domain);
                    lemma_bytes_deep_view(address);
                }
                let f = Filter { address, domain };
                let ghost fm = f@;
                proof {
                    assert(fm == FilterModel {
                        address: tokens_of(line)[0],
                        domain: tokens_of(line)[1],
                    });
                }
                if !contains_entry(complete_block_list, &f) {
                    let ghost prev = complete_block_list.deep_view();
                    complete_block_list.push(f);
                    proof {
                        assert(complete_block_list.deep_view() =~= prev + seq![fm]);
                        assert(complete_block_list.deep_view().subrange(0, old_view.len() as int)
                            =~= prev.subrange(0, old_view.len() as int));
                        assert forall|e: FilterModel| #[trigger]
                            complete_block_list.deep_view().contains(e) <==> (old_view.contains(e)
                                || entries_of_lines(all_lines.take(ln + 1)).contains(e)) by {
                            lemma_contains_snoc(prev, fm, e);
                            lemma_contains_snoc(entries_of_lines(all_lines.take(ln)), fm, e);
                            assert(entries_of_lines(all_lines.take(ln + 1)) =~= entries_of_lines(
                                all_lines.take(ln),
                            ) + seq![fm]);
                        }
                        if unique_entries(old_view) {
                            assert forall|a: int, b: int|
                                0 <= a < b < complete_block_list.deep_view().len() implies #[trigger] complete_block_list.deep_view()[a]
                                != #[trigger] complete_block_list.deep_view()[b] by {
                                if b == prev.len() as int {
                                    assert(prev.contains(complete_block_list.deep_view()[a])
                                        == false || prev[a] != fm) by {
                                        if prev[a] == fm {
                                            assert(prev.contains(fm));
                                        }
                                    }
                                }
                            }
                        }
                    }
                } else {
                    proof {
                        assert forall|e: FilterModel| #[trigger]
                            complete_block_list.deep_view().contains(e) <==> (old_view.contains(e)
                                || entries_of_lines(all_lines.take(ln + 1)).contains(e)) by {
                            lemma_contains_snoc(entries_of_lines(all_lines.take(ln)), fm, e);
                            assert(entries_of_lines(all_lines.take(ln + 1)) =~= entries_of_lines(
                                all_lines.take(ln),
                            ) + seq![fm]);
                        }
                    }
                }
            } else {
                proof {
                    assert(entries_of_lines(all_lines.take(ln + 1)) =~= entries_of_lines(
                        all_lines.take(ln),
                    ));
                    assert(toks.deep_view().len() == tokens_of(line).len());
                }
            }
            proof {
                ln = ln + 1;
            }
            if j == content.len() {
                proof {
                    assert(nl_split(rem) == seq![line]);
                    assert(all_lines.skip(ln - 1) =~= seq![all_lines[ln - 1]]);
                    assert(ln == all_lines.len());
                    assert(all_lines.take(ln) =~= all_lines);
                }
                return Ok(());
            }
            proof {
                assert(rem.skip(j - i + 1) =~= content@.skip(j + 1));
                assert(nl_split(rem) == seq![line] + nl_split(content@.skip(j + 1)));
                assert(all_lines.skip(ln - 1).drop_first() =~= all_lines.skip(ln));
                assert((seq![line] + nl_split(content@.skip(j + 1))).drop_first() =~= nl_split(
                    content@.skip(j + 1),
                ));
                assert(nl_split(content@.skip(j + 1)) == all_lines.skip(ln));
                lemma_nl_split_nonempty(content@.skip(j + 1));
                assert(all_lines.skip(ln).len() >= 1);
                assert(ln < all_lines.len());
            }
            i = j + 1;
        }
    }
}

} // verus!
