//! Reading one line of a Turtle ontology: what it declares, its subject and
//! object terms, prefix declarations and prefixed-name expansion.
use vstd::prelude::*;
use vstd::utf8::{decode_utf8, encode_utf8, valid_utf8};
use crate::lexical::{
    contains, contains_text, drop_trailing, find, find_at, find_from, lemma_find_from, lemma_trim_idempotent,
    split_whitespace, starts_with_text, tokens, trim, trim_chars, trim_end_set, word_len, is_whitespace, is_ws,
};
use crate::node::opt_text;
use crate::string_sets::StringKeyMap;
use crate::text::{chars_of, push_str, string_of, utf8_string};

verus! {

/// A one-character sequence.
pub open spec fn one(c: char) -> Seq<char> {
    seq![c]
}

/// Whether a line declares a class: `a owl:Class`, `rdf:type owl:Class`, or
/// ` a ` / ` rdf:type ` together with the full OWL `Class` IRI.
pub open spec fn is_class_spec(l: Seq<char>) -> bool {
    ||| contains(l, "a owl:Class"@)
    ||| contains(l, "rdf:type owl:Class"@)
    ||| (contains(l, " a "@) || contains(l, " rdf:type "@)) && contains(l, "http://www.w3.org/2002/07/owl#Class"@)
}

/// Whether a line declares a property (object, datatype or RDF property).
pub open spec fn is_property_spec(l: Seq<char>) -> bool {
    ||| contains(l, "a owl:ObjectProperty"@)
    ||| contains(l, "a owl:DatatypeProperty"@)
    ||| contains(l, "a rdf:Property"@)
    ||| (contains(l, " a "@) || contains(l, " rdf:type "@)) && (contains(
        l,
        "http://www.w3.org/2002/07/owl#ObjectProperty"@,
    ) || contains(l, "http://www.w3.org/2002/07/owl#DatatypeProperty"@) || contains(
        l,
        "http://www.w3.org/1999/02/22-rdf-syntax-ns#Property"@,
    ))
}

/// Whether a line declares a property of the given OWL kind, in prefixed form
/// (`a owl:Kind`) or with the full IRI after ` a ` or ` rdf:type `.
pub open spec fn is_owl_kind_spec(l: Seq<char>, prefixed: Seq<char>, full: Seq<char>) -> bool {
    ||| contains(l, prefixed)
    ||| (contains(l, " a "@) || contains(l, " rdf:type "@)) && contains(l, full)
}

/// Whether a line declares a transitive property.
pub open spec fn is_transitive_spec(l: Seq<char>) -> bool {
    is_owl_kind_spec(l, "a owl:TransitiveProperty"@, "http://www.w3.org/2002/07/owl#TransitiveProperty"@)
}

/// Whether a line declares a symmetric property.
pub open spec fn is_symmetric_spec(l: Seq<char>) -> bool {
    is_owl_kind_spec(l, "a owl:SymmetricProperty"@, "http://www.w3.org/2002/07/owl#SymmetricProperty"@)
}

/// Whether a line declares a functional property.
pub open spec fn is_functional_spec(l: Seq<char>) -> bool {
    is_owl_kind_spec(l, "a owl:FunctionalProperty"@, "http://www.w3.org/2002/07/owl#FunctionalProperty"@)
}

/// Whether a line uses the RDFS or OWL predicate with the given local name,
/// prefixed (`rdfs:`, `owl:`) or as a full IRI.
pub open spec fn has_predicate_spec(l: Seq<char>, local: Seq<char>) -> bool {
    ||| contains(l, "rdfs:"@ + local)
    ||| contains(l, "owl:"@ + local)
    ||| contains(l, "http://www.w3.org/2000/01/rdf-schema#"@ + local)
    ||| contains(l, "http://www.w3.org/2002/07/owl#"@ + local)
}

/// Whether a line declares a deduction rule.
pub open spec fn is_rule_spec(l: Seq<char>) -> bool {
    contains(l, "a th:DeductionRule"@) || contains(l, "DeductionRule"@)
}

/// A token that is a prefixed name: it holds a colon and does not start with `<`.
pub open spec fn is_prefixed_token(t: Seq<char>) -> bool {
    contains(t, one(':')) && !one('<').is_prefix_of(t)
}

/// The subject of a line: the text between its first `<` and its first `>`
/// when it has both; else its first token, when that is a prefixed name.
pub open spec fn subject_spec(l: Seq<char>) -> Option<Seq<char>> {
    match (find(l, one('<')), find(l, one('>'))) {
        (Some(s), Some(e)) => Some(l.subrange(s + 1, e)),
        _ => {
            let ts = tokens(l);
            if ts.len() > 0 && is_prefixed_token(ts[0]) {
                Some(ts[0])
            } else {
                None
            }
        },
    }
}

/// Whether taking the subject of a line fails: its first `>` comes before its
/// first `<`.
pub open spec fn subject_fails(l: Seq<char>) -> bool {
    match (find(l, one('<')), find(l, one('>'))) {
        (Some(s), Some(e)) => e < s + 1,
        _ => false,
    }
}

/// The last `<...>` term of `l` found scanning from `from`: each `<` is
/// matched with the next `>`, and scanning resumes after that `>`.
pub open spec fn last_bracketed(l: Seq<char>, from: int) -> Option<Seq<char>>
    decreases l.len() + 1 - from,
{
    if from < 0 || from > l.len() {
        None
    } else {
        match find_from(l, one('<'), from) {
            None => None,
            Some(a) => match find_from(l, one('>'), a) {
                None => None,
                Some(e) => if from <= a < e < l.len() {
                    match last_bracketed(l, e + 1) {
                        Some(u) => Some(u),
                        None => Some(l.subrange(a + 1, e)),
                    }
                } else {
                    None
                },
            },
        }
    }
}

/// The object of a line: its last `<...>` term; failing that, when it has at
/// least three tokens, its last token without trailing `.`, `;` or `,`, when
/// that is a prefixed name.
pub open spec fn object_spec(l: Seq<char>) -> Option<Seq<char>> {
    match last_bracketed(l, 0) {
        Some(u) => Some(u),
        None => {
            let ts = tokens(l);
            if ts.len() >= 3 {
                let obj = drop_trailing(ts.last(), seq!['.', ';', ',']);
                if is_prefixed_token(obj) {
                    Some(obj)
                } else {
                    None
                }
            } else {
                None
            }
        },
    }
}

/// A name with its prefix replaced by the prefix's IRI: a name holding `://`
/// stays as it is; otherwise the part up to and including the first colon is
/// looked up, and a known prefix is replaced.
pub open spec fn expand_spec(name: Seq<char>, pm: Map<Seq<char>, Seq<char>>) -> Seq<char> {
    if contains(name, "://"@) {
        name
    } else {
        match find(name, one(':')) {
            Some(c) => if pm.contains_key(name.take(c + 1)) {
                pm[name.take(c + 1)] + name.skip(c + 1)
            } else {
                name
            },
            None => name,
        }
    }
}

/// The optional name, expanded.
pub open spec fn expand_opt(o: Option<Seq<char>>, pm: Map<Seq<char>, Seq<char>>) -> Option<Seq<char>> {
    match o {
        Some(n) => Some(expand_spec(n, pm)),
        None => None,
    }
}

/// The position of the first whitespace character of `s`, if any.
pub open spec fn first_ws(s: Seq<char>) -> Option<int> {
    if word_len(s) < s.len() {
        Some(word_len(s) as int)
    } else {
        None
    }
}

/// Whether the byte offset `p` of the UTF-8 form of `s` starts a character.
pub open spec fn at_char_boundary(s: Seq<char>, p: int) -> bool {
    0 <= p <= encode_utf8(s).len() && valid_utf8(encode_utf8(s).skip(p))
}

/// The text of `s` from byte offset `p` on.
pub open spec fn from_byte(s: Seq<char>, p: int) -> Seq<char> {
    decode_utf8(encode_utf8(s).skip(p))
}

/// The uppercase form of a text (`str::to_uppercase`).
pub uninterp spec fn uppercase(s: Seq<char>) -> Seq<char>;

/// `str::to_uppercase`: the text's uppercase form, by Unicode's case mapping.
#[verifier::external_body]
fn to_upper(s: &str) -> (r: String)
    ensures
        r@ == uppercase(s@),
{
    s.to_uppercase()
}

/// What follows the directive of a prefix declaration, given the line and the
/// uppercase form of the trimmed line: after `@prefix`; or, when the uppercase
/// form starts with `PREFIX`, from the first whitespace on (counted in
/// characters, cut at that many bytes); `None` when neither applies.
pub open spec fn directive_rest(line: Seq<char>, upper: Seq<char>) -> Option<Seq<char>> {
    let t = trim(line);
    if "@prefix"@.is_prefix_of(t) {
        Some(trim(t.skip(7)))
    } else if "PREFIX"@.is_prefix_of(upper) {
        match first_ws(t) {
            Some(p) => Some(trim(from_byte(t, p))),
            None => None,
        }
    } else {
        None
    }
}

/// Whether the `<...>` of a declaration body can be cut out: its first `>`
/// does not come before its first `<`.
pub open spec fn body_ok(w: Seq<char>) -> bool {
    match first_ws(w) {
        Some(k) => !subject_fails(trim(w.skip(k + 1))),
        None => true,
    }
}

/// The prefix and IRI a declaration body declares: the first word without
/// trailing colons, then a colon; and the text between the first `<` and the
/// first `>` of the rest.
pub open spec fn declaration_spec(w: Seq<char>) -> Option<(Seq<char>, Seq<char>)> {
    match first_ws(w) {
        Some(k) => {
            let rest = trim(w.skip(k + 1));
            let prefix = drop_trailing(w.take(k), one(':'));
            match (find(rest, one('<')), find(rest, one('>'))) {
                (Some(s), Some(e)) => Some((prefix + one(':'), rest.subrange(s + 1, e))),
                _ => None,
            }
        },
        None => None,
    }
}

/// The prefix declaration of a line, given the uppercase form of the trimmed line.
pub open spec fn prefix_decl_spec(line: Seq<char>, upper: Seq<char>) -> Option<(Seq<char>, Seq<char>)> {
    match directive_rest(line, upper) {
        Some(w) => declaration_spec(w),
        None => None,
    }
}

/// Whether reading a prefix declaration succeeds without failing: the cut at
/// the first whitespace falls on a character boundary, and the declaration's
/// `<...>` is well ordered.
pub open spec fn prefix_decl_ok(line: Seq<char>, upper: Seq<char>) -> bool {
    let t = trim(line);
    if "@prefix"@.is_prefix_of(t) {
        body_ok(trim(t.skip(7)))
    } else if "PREFIX"@.is_prefix_of(upper) {
        match first_ws(t) {
            Some(p) => at_char_boundary(t, p) && body_ok(trim(from_byte(t, p))),
            None => true,
        }
    } else {
        true
    }
}

/// The same condition for a trimmed line that starts with a directive,
/// whatever its uppercase form.
pub open spec fn directive_line_ok(t: Seq<char>) -> bool {
    if "@prefix"@.is_prefix_of(t) {
        body_ok(trim(t.skip(7)))
    } else {
        match first_ws(t) {
            Some(p) => at_char_boundary(t, p) && body_ok(trim(from_byte(t, p))),
            None => true,
        }
    }
}

/// The view of an optional pair of strings.
pub open spec fn opt_pair(o: Option<(String, String)>) -> Option<(Seq<char>, Seq<char>)> {
    match o {
        Some((a, b)) => Some((a@, b@)),
        None => None,
    }
}

fn one_char(c: char) -> (r: Vec<char>)
    ensures
        r@ == one(c),
{
    let mut v: Vec<char> = Vec::new();
    v.push(c);
    assert(v@ =~= one(c));
    v
}

/// Whether a line declares a class.
pub fn is_class_definition(line: &str) -> (r: bool)
    ensures
        r == is_class_spec(line@),
{
    let l = chars_of(line);
    let l = l.as_slice();
    if contains_text(l, "a owl:Class") || contains_text(l, "rdf:type owl:Class") {
        return true;
    }
    (contains_text(l, " a ") || contains_text(l, " rdf:type ")) && contains_text(
        l,
        "http://www.w3.org/2002/07/owl#Class",
    )
}

/// Whether a line declares a property.
pub fn is_property_definition(line: &str) -> (r: bool)
    ensures
        r == is_property_spec(line@),
{
    let l = chars_of(line);
    let l = l.as_slice();
    if contains_text(l, "a owl:ObjectProperty") || contains_text(l, "a owl:DatatypeProperty") || contains_text(
        l,
        "a rdf:Property",
    ) {
        return true;
    }
    if contains_text(l, " a ") || contains_text(l, " rdf:type ") {
        if contains_text(l, "http://www.w3.org/2002/07/owl#ObjectProperty") || contains_text(
            l,
            "http://www.w3.org/2002/07/owl#DatatypeProperty",
        ) || contains_text(l, "http://www.w3.org/1999/02/22-rdf-syntax-ns#Property") {
            return true;
        }
    }
    false
}

fn is_owl_kind(l: &[char], prefixed: &str, full: &str) -> (r: bool)
    ensures
        r == is_owl_kind_spec(l@, prefixed@, full@),
{
    if contains_text(l, prefixed) {
        return true;
    }
    (contains_text(l, " a ") || contains_text(l, " rdf:type ")) && contains_text(l, full)
}

/// Whether a line declares a transitive property.
pub fn is_transitive_property(line: &str) -> (r: bool)
    ensures
        r == is_transitive_spec(line@),
{
    let l = chars_of(line);
    is_owl_kind(l.as_slice(), "a owl:TransitiveProperty", "http://www.w3.org/2002/07/owl#TransitiveProperty")
}

/// Whether a line declares a symmetric property.
pub fn is_symmetric_property(line: &str) -> (r: bool)
    ensures
        r == is_symmetric_spec(line@),
{
    let l = chars_of(line);
    is_owl_kind(l.as_slice(), "a owl:SymmetricProperty", "http://www.w3.org/2002/07/owl#SymmetricProperty")
}

/// Whether a line declares a functional property.
pub fn is_functional_property(line: &str) -> (r: bool)
    ensures
        r == is_functional_spec(line@),
{
    let l = chars_of(line);
    is_owl_kind(l.as_slice(), "a owl:FunctionalProperty", "http://www.w3.org/2002/07/owl#FunctionalProperty")
}

fn contains_joined(l: &[char], head: &str, local: &str) -> (r: bool)
    ensures
        r == contains(l@, head@ + local@),
{
    let mut p: Vec<char> = Vec::new();
    push_str(&mut p, head);
    push_str(&mut p, local);
    find_at(l, p.as_slice(), 0).is_some()
}

/// Whether a line uses the RDFS or OWL predicate `predicate_local`.
pub fn contains_predicate(line: &str, predicate_local: &str) -> (r: bool)
    ensures
        r == has_predicate_spec(line@, predicate_local@),
{
    let l = chars_of(line);
    let l = l.as_slice();
    contains_joined(l, "rdfs:", predicate_local) || contains_joined(l, "owl:", predicate_local) || contains_joined(
        l,
        "http://www.w3.org/2000/01/rdf-schema#",
        predicate_local,
    ) || contains_joined(l, "http://www.w3.org/2002/07/owl#", predicate_local)
}

/// Whether a line declares a deduction rule.
pub fn is_rule_declaration(line: &str) -> (r: bool)
    ensures
        r == is_rule_spec(line@),
{
    let l = chars_of(line);
    contains_text(l.as_slice(), "a th:DeductionRule") || contains_text(l.as_slice(), "DeductionRule")
}

fn prefixed_token(t: &[char]) -> (r: bool)
    ensures
        r == is_prefixed_token(t@),
{
    let colon = one_char(':');
    let has_colon = find_at(t, colon.as_slice(), 0).is_some();
    let starts = t.len() > 0 && t[0] == '<';
    proof {
        if t@.len() > 0 {
            if t@[0] == '<' {
                assert(t@.subrange(0, 1) =~= one('<'));
            } else {
                assert(t@.subrange(0, 1)[0] != one('<')[0]);
            }
        }
    }
    has_colon && !starts
}

/// The subject of a line: the text between its first `<` and its first `>`,
/// or else its first token when that is a prefixed name.
pub fn extract_subject(line: &str) -> (r: Option<String>)
    requires
        !subject_fails(line@),
    ensures
        opt_text(r) == subject_spec(line@),
{
    let l = chars_of(line);
    let lt = one_char('<');
    let gt = one_char('>');
    let n = l.len();
    let fs = find_at(l.as_slice(), lt.as_slice(), 0);
    let fe = find_at(l.as_slice(), gt.as_slice(), 0);
    match (fs, fe) {
        (Some(s), Some(e)) => {
            proof {
                lemma_find_from(l@, one('<'), 0);
                lemma_find_from(l@, one('>'), 0);
            }
            let inner = vstd::slice::slice_subrange(l.as_slice(), s + 1, e);
            return Some(string_of(inner));
        },
        _ => {},
    }
    let parts = split_whitespace(l.as_slice());
    if parts.len() > 0 {
        let subject = &parts[0];
        assert(parts@.map_values(|v: Vec<char>| v@)[0] == subject@);
        if prefixed_token(subject.as_slice()) {
            return Some(string_of(subject.as_slice()));
        }
    }
    None
}

/// The object of a line: its last `<...>` term, or else its last token (of at
/// least three) without trailing `.`, `;` or `,`, when that is a prefixed name.
pub fn extract_last_uri_or_prefixed(line: &str) -> (r: Option<String>)
    ensures
        opt_text(r) == object_spec(line@),
{
    let l = chars_of(line);
    let lt = one_char('<');
    let gt = one_char('>');
    let n = l.len();
    let mut last: Option<Vec<char>> = None;
    let mut search_from: usize = 0;
    loop
        invariant
            search_from <= n,
            n == l@.len(),
            lt@ == one('<'),
            gt@ == one('>'),
            match last_bracketed(l@, 0) {
                Some(u) => match last_bracketed(l@, search_from as int) {
                    Some(v) => u == v,
                    None => last matches Some(w) && w@ == u,
                },
                None => last is None && last_bracketed(l@, search_from as int) is None,
            },
        ensures
            last_bracketed(l@, search_from as int) is None,
            match last_bracketed(l@, 0) {
                Some(u) => last matches Some(w) && w@ == u,
                None => last is None,
            },
        decreases n - search_from,
    {
        proof {
            lemma_find_from(l@, one('<'), search_from as int);
        }
        match find_at(l.as_slice(), lt.as_slice(), search_from) {
            Some(a) => {
                proof {
                    lemma_find_from(l@, one('>'), a as int);
                    assert(l@.subrange(a as int, a + 1) =~= one('<'));
                    assert(l@.subrange(a as int, a + 1)[0] == l@[a as int]);
                }
                match find_at(l.as_slice(), gt.as_slice(), a) {
                    Some(e) => {
                        proof {
                            assert(l@.subrange(e as int, e + 1) =~= one('>'));
                            assert(l@.subrange(e as int, e + 1)[0] == l@[e as int]);
                            assert(l@[a as int] == '<');
                            assert(l@[e as int] == '>');
                        }
                        let uri = vstd::slice::slice_to_vec(vstd::slice::slice_subrange(l.as_slice(), a + 1, e));
                        last = Some(uri);
                        search_from = e + 1;
                    },
                    None => {
                        assert(last_bracketed(l@, search_from as int) is None);
                        break;
                    },
                }
            },
            None => {
                assert(last_bracketed(l@, search_from as int) is None);
                break;
            },
        }
    }
    match last {
        Some(u) => {
            return Some(string_of(u.as_slice()));
        },
        None => {},
    }
    let parts = split_whitespace(l.as_slice());
    if parts.len() >= 3 {
        let lastp = &parts[parts.len() - 1];
        assert(parts@.map_values(|v: Vec<char>| v@).last() == lastp@);
        let punct: [char; 3] = ['.', ';', ','];
        assert(punct@ =~= seq!['.', ';', ',']);
        let obj = trim_end_set(lastp.as_slice(), punct.as_slice());
        if prefixed_token(obj.as_slice()) {
            return Some(string_of(obj.as_slice()));
        }
    }
    None
}

/// The subject and object of a line.
pub fn extract_subject_object(line: &str) -> (r: (Option<String>, Option<String>))
    requires
        !subject_fails(line@),
    ensures
        opt_text(r.0) == subject_spec(line@),
        opt_text(r.1) == object_spec(line@),
{
    let subject = extract_subject(line);
    let object = extract_last_uri_or_prefixed(line);
    (subject, object)
}

/// A name with its prefix replaced by the IRI it is declared for, when the
/// prefix is known and the name is not already a full IRI.
pub fn expand_prefixed_name(name: &str, prefixes: &StringKeyMap<String>) -> (r: String)
    ensures
        r@ == expand_spec(name@, prefixes@),
{
    let n = chars_of(name);
    let nlen = n.len();
    if contains_text(n.as_slice(), "://") {
        return name.to_owned();
    }
    let colon = one_char(':');
    match find_at(n.as_slice(), colon.as_slice(), 0) {
        Some(c) => {
            proof {
                lemma_find_from(n@, one(':'), 0);
            }
            let head = string_of(vstd::slice::slice_subrange(n.as_slice(), 0, c + 1));
            assert(head@ =~= n@.take(c + 1));
            match prefixes.get(head.as_str()) {
                Some(base) => {
                    let mut out = chars_of(base.as_str());
                    let mut i = c + 1;
                    let ghost b = out@;
                    while i < n.len()
                        invariant
                            c + 1 <= i <= n@.len(),
                            out@ == b + n@.subrange(c + 1, i as int),
                        decreases n@.len() - i,
                    {
                        out.push(n[i]);
                        i += 1;
                        assert(out@ =~= b + n@.subrange(c + 1, i as int));
                    }
                    assert(n@.subrange(c + 1, n@.len() as int) =~= n@.skip(c + 1));
                    string_of(out.as_slice())
                },
                None => name.to_owned(),
            }
        },
        None => name.to_owned(),
    }
}

/// The subject of a line, expanded.
pub fn extract_subject_with_prefixes(line: &str, prefixes: &StringKeyMap<String>) -> (r: Option<String>)
    requires
        !subject_fails(line@),
    ensures
        opt_text(r) == expand_opt(subject_spec(line@), prefixes@),
{
    match extract_subject(line) {
        Some(raw) => Some(expand_prefixed_name(raw.as_str(), prefixes)),
        None => None,
    }
}

/// The subject and object of a line, expanded.
pub fn extract_subject_object_with_prefixes(line: &str, prefixes: &StringKeyMap<String>) -> (r: (
    Option<String>,
    Option<String>,
))
    requires
        !subject_fails(line@),
    ensures
        opt_text(r.0) == expand_opt(subject_spec(line@), prefixes@),
        opt_text(r.1) == expand_opt(object_spec(line@), prefixes@),
{
    let (subject, object) = extract_subject_object(line);
    let s = match subject {
        Some(s) => Some(expand_prefixed_name(s.as_str(), prefixes)),
        None => None,
    };
    let o = match object {
        Some(o) => Some(expand_prefixed_name(o.as_str(), prefixes)),
        None => None,
    };
    (s, o)
}

fn first_whitespace(s: &[char]) -> (r: Option<usize>)
    ensures
        match first_ws(s@) {
            Some(p) => r == Some(p as usize),
            None => r is None,
        },
{
    let mut i: usize = 0;
    while i < s.len() && !is_whitespace(s[i])
        invariant
            i <= s@.len(),
            forall|j: int| 0 <= j < i ==> !is_ws(#[trigger] s@[j]),
        decreases s@.len() - i,
    {
        i += 1;
    }
    proof {
        crate::lexical::lemma_word_len(s@, i as int);
    }
    if i < s.len() {
        Some(i)
    } else {
        None
    }
}

fn declaration(w: &[char]) -> (r: Option<(String, String)>)
    requires
        body_ok(w@),
    ensures
        opt_pair(r) == declaration_spec(w@),
{
    let wl = w.len();
    match first_whitespace(w) {
        Some(k) => {
            let after = vstd::slice::slice_subrange(w, k + 1, w.len());
            assert(after@ =~= w@.skip(k + 1));
            let rest = trim_chars(after);
            let colon = one_char(':');
            let word = vstd::slice::slice_subrange(w, 0, k);
            assert(word@ =~= w@.take(k as int));
            let mut prefix = trim_end_set(word, colon.as_slice());
            let lt = one_char('<');
            let gt = one_char('>');
            let rl = rest.len();
            let fs = find_at(rest.as_slice(), lt.as_slice(), 0);
            let fe = find_at(rest.as_slice(), gt.as_slice(), 0);
            proof {
                lemma_find_from(rest@, one('<'), 0);
                lemma_find_from(rest@, one('>'), 0);
            }
            match (fs, fe) {
                (Some(s), Some(e)) => {
                    prefix.push(':');
                    let uri = string_of(vstd::slice::slice_subrange(rest.as_slice(), s + 1, e));
                    let p = string_of(prefix.as_slice());
                    Some((p, uri))
                },
                _ => None,
            }
        },
        None => None,
    }
}

/// The prefix and IRI a prefix declaration line declares, given the uppercase
/// form of the trimmed line (what `str::to_uppercase` gives for it).
pub fn parse_prefix_declaration_with(line: &str, upper: &str) -> (r: Option<(String, String)>)
    requires
        prefix_decl_ok(line@, upper@),
    ensures
        opt_pair(r) == prefix_decl_spec(line@, upper@),
{
    let t = trim_chars(chars_of(line).as_slice());
    proof {
        reveal_strlit("@prefix");
    }
    if starts_with_text(t.as_slice(), "@prefix") {
        let after = vstd::slice::slice_subrange(t.as_slice(), 7, t.len());
        assert(after@ =~= t@.skip(7));
        let body = trim_chars(after);
        return declaration(body.as_slice());
    }
    let u = chars_of(upper);
    if !starts_with_text(u.as_slice(), "PREFIX") {
        return None;
    }
    match first_whitespace(t.as_slice()) {
        Some(p) => {
            let ts = string_of(t.as_slice());
            let bytes = ts.as_str().as_bytes();
            let tail = vstd::slice::slice_subrange(bytes, p, bytes.len());
            assert(tail@ =~= encode_utf8(t@).skip(p as int));
            match utf8_string(tail) {
                Some(s) => {
                    let body = trim_chars(chars_of(s.as_str()).as_slice());
                    declaration(body.as_slice())
                },
                None => None,
            }
        },
        None => None,
    }
}

/// The prefix and IRI a prefix declaration line declares (`@prefix p: <iri> .`
/// or `PREFIX p: <iri>`), the prefix ending in a colon.
pub fn parse_prefix_declaration(line: &str) -> (r: Option<(String, String)>)
    requires
        prefix_decl_ok(line@, uppercase(trim(line@))),
    ensures
        opt_pair(r) == prefix_decl_spec(line@, uppercase(trim(line@))),
{
    let t = string_of(trim_chars(chars_of(line).as_slice()).as_slice());
    let upper = to_upper(t.as_str());
    parse_prefix_declaration_with(line, upper.as_str())
}

/// Whether the subject of a line can be taken: its first `>` does not come
/// before its first `<`.
pub fn subject_readable(l: &[char]) -> (r: bool)
    ensures
        r == !subject_fails(l@),
{
    let lt = one_char('<');
    let gt = one_char('>');
    let fs = find_at(l, lt.as_slice(), 0);
    let fe = find_at(l, gt.as_slice(), 0);
    let ll = l.len();
    proof {
        lemma_find_from(l@, one('<'), 0);
        lemma_find_from(l@, one('>'), 0);
    }
    if fs.is_some() && fe.is_some() {
        let s = fs.unwrap();
        let e = fe.unwrap();
        assert(subject_fails(l@) == (e < s + 1));
        e > s
    } else {
        assert(!subject_fails(l@));
        true
    }
}

/// Whether the `<...>` of a declaration body can be cut out.
fn body_readable(w: &[char]) -> (r: bool)
    ensures
        r == body_ok(w@),
{
    let wl = w.len();
    match first_whitespace(w) {
        Some(k) => {
            let after = vstd::slice::slice_subrange(w, k + 1, w.len());
            assert(after@ =~= w@.skip(k + 1));
            let rest = trim_chars(after);
            subject_readable(rest.as_slice())
        },
        None => true,
    }
}

/// Whether a prefix declaration line can be read without failing, given the
/// uppercase form of the trimmed line: `parse_prefix_declaration_with` may be
/// called exactly when this holds.
pub fn prefix_declaration_readable(line: &str, upper: &str) -> (r: bool)
    ensures
        r == prefix_decl_ok(line@, upper@),
{
    let t = trim_chars(chars_of(line).as_slice());
    proof {
        reveal_strlit("@prefix");
    }
    if starts_with_text(t.as_slice(), "@prefix") {
        let after = vstd::slice::slice_subrange(t.as_slice(), 7, t.len());
        assert(after@ =~= t@.skip(7));
        let body = trim_chars(after);
        return body_readable(body.as_slice());
    }
    let u = chars_of(upper);
    if !starts_with_text(u.as_slice(), "PREFIX") {
        return true;
    }
    match first_whitespace(t.as_slice()) {
        Some(p) => {
            let ts = string_of(t.as_slice());
            let bytes = ts.as_str().as_bytes();
            if p > bytes.len() {
                return false;
            }
            let tail = vstd::slice::slice_subrange(bytes, p, bytes.len());
            assert(tail@ =~= encode_utf8(t@).skip(p as int));
            match utf8_string(tail) {
                Some(s) => {
                    let body = trim_chars(chars_of(s.as_str()).as_slice());
                    body_readable(body.as_slice())
                },
                None => false,
            }
        },
        None => true,
    }
}

/// The prefix declaration of a line, or `None` where reading it would fail
/// (a cut off a character boundary, or a `>` before the `<`).
pub fn try_parse_prefix_declaration(line: &str) -> (r: Option<Option<(String, String)>>)
    ensures
        r is Some <==> prefix_decl_ok(line@, uppercase(trim(line@))),
        r matches Some(d) ==> opt_pair(d) == prefix_decl_spec(line@, uppercase(trim(line@))),
{
    let t = string_of(trim_chars(chars_of(line).as_slice()).as_slice());
    let upper = to_upper(t.as_str());
    if prefix_declaration_readable(line, upper.as_str()) {
        Some(parse_prefix_declaration(line))
    } else {
        None
    }
}

/// A trimmed line that starts with a directive, and whose declaration can be
/// read, can be read whatever its uppercase form.
pub proof fn lemma_directive_line_ok(t: Seq<char>, upper: Seq<char>)
    requires
        t == trim(t),
        directive_line_ok(t),
    ensures
        prefix_decl_ok(t, upper),
{
}

} // verus!
