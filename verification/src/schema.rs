//! An ontology schema read from Turtle: classes and properties, their
//! hierarchies, domains and ranges, OWL property characteristics, inverse
//! pairs and rule annotations.
use vstd::prelude::*;
use crate::lexical::{lemma_trim_idempotent, lines_of, split_lines, starts_with_text, trim, trim_chars};
use crate::string_sets::{distinct_keys, pairs_map, StringKeyMap, StringSet};
use crate::text::{chars_of, string_of};
use crate::turtle_lines::{
    contains_predicate, directive_line_ok, expand_opt, extract_subject_object_with_prefixes,
    extract_subject_with_prefixes, has_predicate_spec, is_class_definition, is_class_spec, is_functional_property,
    is_functional_spec, is_property_definition, is_property_spec, is_rule_declaration, is_rule_spec,
    is_symmetric_property, is_symmetric_spec, is_transitive_property, is_transitive_spec, lemma_directive_line_ok,
    object_spec, one, opt_pair, parse_prefix_declaration, prefix_decl_spec, prefix_declaration_readable, subject_fails,
    subject_readable, subject_spec, uppercase,
};

verus! {

/// Errors of the reasoner's schema loading.
#[derive(Debug)]
pub enum ThinkingReasonerError {
    /// The ontology text could not be read; the text says why.
    Parse(String),
}

/// The value of a [`CustomRule`].
pub struct CustomRuleView {
    /// Rule identifier.
    pub id: Seq<char>,
    /// Rule name.
    pub name: Seq<char>,
    /// Head pattern.
    pub head: Seq<char>,
    /// Body patterns.
    pub body: Seq<char>,
    /// Priority.
    pub priority: i32,
}

/// A rule declared in the ontology by annotations.
#[derive(Debug)]
pub struct CustomRule {
    /// Rule identifier URI.
    pub id: String,
    /// Rule name.
    pub name: String,
    /// Head pattern (conclusion).
    pub head: String,
    /// Body patterns (premises).
    pub body: String,
    /// Priority (higher runs earlier).
    pub priority: i32,
}

impl View for CustomRule {
    type V = CustomRuleView;

    open spec fn view(&self) -> CustomRuleView {
        CustomRuleView { id: self.id@, name: self.name@, head: self.head@, body: self.body@, priority: self.priority }
    }
}

impl CustomRule {
    /// A copy of the rule.
    pub fn duplicate(&self) -> (r: CustomRule)
        ensures
            r@ == self@,
    {
        CustomRule {
            id: self.id.clone(),
            name: self.name.clone(),
            head: self.head.clone(),
            body: self.body.clone(),
            priority: self.priority,
        }
    }
}

/// The value of an [`OntologySchema`].
pub struct SchemaView {
    /// Classes.
    pub classes: Set<Seq<char>>,
    /// Class to its direct superclasses.
    pub class_hierarchy: Map<Seq<char>, Set<Seq<char>>>,
    /// Properties.
    pub properties: Set<Seq<char>>,
    /// Property to its direct superproperties.
    pub property_hierarchy: Map<Seq<char>, Set<Seq<char>>>,
    /// Property to its domain classes.
    pub domains: Map<Seq<char>, Set<Seq<char>>>,
    /// Property to its range classes.
    pub ranges: Map<Seq<char>, Set<Seq<char>>>,
    /// Transitive properties.
    pub transitive_properties: Set<Seq<char>>,
    /// Symmetric properties.
    pub symmetric_properties: Set<Seq<char>>,
    /// Functional properties.
    pub functional_properties: Set<Seq<char>>,
    /// Property to its inverse.
    pub inverse_properties: Map<Seq<char>, Seq<char>>,
    /// Declared rules, in order.
    pub custom_rules: Seq<CustomRuleView>,
}

/// An ontology schema.
pub struct OntologySchema {
    /// All classes defined in the ontology.
    pub classes: StringSet,
    /// Class hierarchy: class to its superclasses.
    pub class_hierarchy: StringKeyMap<StringSet>,
    /// All properties defined in the ontology.
    pub properties: StringSet,
    /// Property hierarchy: property to its superproperties.
    pub property_hierarchy: StringKeyMap<StringSet>,
    /// Domain constraints: property to its domain classes.
    pub domains: StringKeyMap<StringSet>,
    /// Range constraints: property to its range classes.
    pub ranges: StringKeyMap<StringSet>,
    /// Transitive properties.
    pub transitive_properties: StringSet,
    /// Symmetric properties.
    pub symmetric_properties: StringSet,
    /// Functional properties.
    pub functional_properties: StringSet,
    /// Inverse property pairs (both directions).
    pub inverse_properties: StringKeyMap<String>,
    /// Custom rule definitions from ontology annotations.
    pub custom_rules: Vec<CustomRule>,
}

/// The views of a sequence of rules.
pub open spec fn rule_views(v: Seq<CustomRule>) -> Seq<CustomRuleView> {
    v.map_values(|r: CustomRule| r@)
}

impl View for OntologySchema {
    type V = SchemaView;

    open spec fn view(&self) -> SchemaView {
        SchemaView {
            classes: self.classes@,
            class_hierarchy: self.class_hierarchy@,
            properties: self.properties@,
            property_hierarchy: self.property_hierarchy@,
            domains: self.domains@,
            ranges: self.ranges@,
            transitive_properties: self.transitive_properties@,
            symmetric_properties: self.symmetric_properties@,
            functional_properties: self.functional_properties@,
            inverse_properties: self.inverse_properties@,
            custom_rules: rule_views(self.custom_rules@),
        }
    }
}

/// The schema with nothing in it.
pub open spec fn empty_schema() -> SchemaView {
    SchemaView {
        classes: Set::empty(),
        class_hierarchy: Map::empty(),
        properties: Set::empty(),
        property_hierarchy: Map::empty(),
        domains: Map::empty(),
        ranges: Map::empty(),
        transitive_properties: Set::empty(),
        symmetric_properties: Set::empty(),
        functional_properties: Set::empty(),
        inverse_properties: Map::empty(),
        custom_rules: Seq::empty(),
    }
}

/// `m` with `v` added to the set under `k` (an empty set where `k` has none).
pub open spec fn add_to(m: Map<Seq<char>, Set<Seq<char>>>, k: Seq<char>, v: Seq<char>) -> Map<
    Seq<char>,
    Set<Seq<char>>,
> {
    m.insert(k, if m.contains_key(k) { m[k] } else { Set::empty() }.insert(v))
}

/// Whether a trimmed line is blank, a comment, or a directive starting with `@`.
pub open spec fn skipped(t: Seq<char>) -> bool {
    t.len() == 0 || one('#').is_prefix_of(t) || one('@').is_prefix_of(t)
}

/// Whether a trimmed line starts with a prefix directive.
pub open spec fn is_directive(t: Seq<char>) -> bool {
    "@prefix"@.is_prefix_of(t) || "PREFIX"@.is_prefix_of(t)
}

/// Whether reading a line takes its subject.
pub open spec fn reads_subject(t: Seq<char>) -> bool {
    ||| is_class_spec(t)
    ||| has_predicate_spec(t, "subClassOf"@)
    ||| is_property_spec(t)
    ||| has_predicate_spec(t, "subPropertyOf"@)
    ||| has_predicate_spec(t, "domain"@)
    ||| has_predicate_spec(t, "range"@)
    ||| is_transitive_spec(t)
    ||| is_symmetric_spec(t)
    ||| is_functional_spec(t)
    ||| has_predicate_spec(t, "inverseOf"@)
    ||| is_rule_spec(t)
}

/// The lines of a text, each trimmed.
pub open spec fn trimmed_lines(text: Seq<char>) -> Seq<Seq<char>> {
    split_lines(text).map_values(|l: Seq<char>| trim(l))
}

/// The prefixes that the directive lines among `ls` declare, a later
/// declaration of a prefix winning.
pub open spec fn declared_prefixes(ls: Seq<Seq<char>>) -> Map<Seq<char>, Seq<char>>
    decreases ls.len(),
{
    if ls.len() == 0 {
        Map::empty()
    } else {
        let m = declared_prefixes(ls.drop_last());
        let t = ls.last();
        if is_directive(t) {
            match prefix_decl_spec(t, uppercase(trim(t))) {
                Some((p, u)) => m.insert(p, u),
                None => m,
            }
        } else {
            m
        }
    }
}

/// The subject of a line, expanded with the prefixes `pm`.
pub open spec fn subject_of(t: Seq<char>, pm: Map<Seq<char>, Seq<char>>) -> Option<Seq<char>> {
    expand_opt(subject_spec(t), pm)
}

/// The object of a line, expanded with the prefixes `pm`.
pub open spec fn object_of(t: Seq<char>, pm: Map<Seq<char>, Seq<char>>) -> Option<Seq<char>> {
    expand_opt(object_spec(t), pm)
}

/// Whether a line has both a subject and an object.
pub open spec fn has_both(t: Seq<char>, pm: Map<Seq<char>, Seq<char>>) -> bool {
    subject_of(t, pm) is Some && object_of(t, pm) is Some
}

/// A class declaration adds its subject to the classes.
pub open spec fn add_class(s: SchemaView, t: Seq<char>, pm: Map<Seq<char>, Seq<char>>) -> SchemaView {
    if is_class_spec(t) && subject_of(t, pm) is Some {
        SchemaView { classes: s.classes.insert(subject_of(t, pm)->0), ..s }
    } else {
        s
    }
}

/// A `subClassOf` line adds its object above its subject.
pub open spec fn add_sub_class(s: SchemaView, t: Seq<char>, pm: Map<Seq<char>, Seq<char>>) -> SchemaView {
    if has_predicate_spec(t, "subClassOf"@) && has_both(t, pm) {
        SchemaView {
            class_hierarchy: add_to(s.class_hierarchy, subject_of(t, pm)->0, object_of(t, pm)->0),
            ..s
        }
    } else {
        s
    }
}

/// A property declaration adds its subject to the properties.
pub open spec fn add_property(s: SchemaView, t: Seq<char>, pm: Map<Seq<char>, Seq<char>>) -> SchemaView {
    if is_property_spec(t) && subject_of(t, pm) is Some {
        SchemaView { properties: s.properties.insert(subject_of(t, pm)->0), ..s }
    } else {
        s
    }
}

/// A `subPropertyOf` line adds its object above its subject.
pub open spec fn add_sub_property(s: SchemaView, t: Seq<char>, pm: Map<Seq<char>, Seq<char>>) -> SchemaView {
    if has_predicate_spec(t, "subPropertyOf"@) && has_both(t, pm) {
        SchemaView {
            property_hierarchy: add_to(s.property_hierarchy, subject_of(t, pm)->0, object_of(t, pm)->0),
            ..s
        }
    } else {
        s
    }
}

/// A `domain` line adds its object to its subject's domains.
pub open spec fn add_domain(s: SchemaView, t: Seq<char>, pm: Map<Seq<char>, Seq<char>>) -> SchemaView {
    if has_predicate_spec(t, "domain"@) && has_both(t, pm) {
        SchemaView { domains: add_to(s.domains, subject_of(t, pm)->0, object_of(t, pm)->0), ..s }
    } else {
        s
    }
}

/// A `range` line adds its object to its subject's ranges.
pub open spec fn add_range(s: SchemaView, t: Seq<char>, pm: Map<Seq<char>, Seq<char>>) -> SchemaView {
    if has_predicate_spec(t, "range"@) && has_both(t, pm) {
        SchemaView { ranges: add_to(s.ranges, subject_of(t, pm)->0, object_of(t, pm)->0), ..s }
    } else {
        s
    }
}

/// A transitive-property declaration adds its subject to those properties.
pub open spec fn add_transitive(s: SchemaView, t: Seq<char>, pm: Map<Seq<char>, Seq<char>>) -> SchemaView {
    if is_transitive_spec(t) && subject_of(t, pm) is Some {
        SchemaView { transitive_properties: s.transitive_properties.insert(subject_of(t, pm)->0), ..s }
    } else {
        s
    }
}

/// A symmetric-property declaration adds its subject to those properties.
pub open spec fn add_symmetric(s: SchemaView, t: Seq<char>, pm: Map<Seq<char>, Seq<char>>) -> SchemaView {
    if is_symmetric_spec(t) && subject_of(t, pm) is Some {
        SchemaView { symmetric_properties: s.symmetric_properties.insert(subject_of(t, pm)->0), ..s }
    } else {
        s
    }
}

/// A functional-property declaration adds its subject to those properties.
pub open spec fn add_functional(s: SchemaView, t: Seq<char>, pm: Map<Seq<char>, Seq<char>>) -> SchemaView {
    if is_functional_spec(t) && subject_of(t, pm) is Some {
        SchemaView { functional_properties: s.functional_properties.insert(subject_of(t, pm)->0), ..s }
    } else {
        s
    }
}

/// An `inverseOf` line makes its subject and object inverses of each other.
pub open spec fn add_inverse(s: SchemaView, t: Seq<char>, pm: Map<Seq<char>, Seq<char>>) -> SchemaView {
    if has_predicate_spec(t, "inverseOf"@) && has_both(t, pm) {
        let a = subject_of(t, pm)->0;
        let b = object_of(t, pm)->0;
        SchemaView { inverse_properties: s.inverse_properties.insert(a, b).insert(b, a), ..s }
    } else {
        s
    }
}

/// A rule declaration appends a rule with its subject as identifier, empty
/// name, head and body, and priority zero.
pub open spec fn add_rule(s: SchemaView, t: Seq<char>, pm: Map<Seq<char>, Seq<char>>) -> SchemaView {
    if is_rule_spec(t) && subject_of(t, pm) is Some {
        SchemaView {
            custom_rules: s.custom_rules.push(
                CustomRuleView {
                    id: subject_of(t, pm)->0,
                    name: Seq::empty(),
                    head: Seq::empty(),
                    body: Seq::empty(),
                    priority: 0,
                },
            ),
            ..s
        }
    } else {
        s
    }
}

/// What one line adds to a schema, names expanded with the prefixes `pm`.
pub open spec fn apply_line(s: SchemaView, t: Seq<char>, pm: Map<Seq<char>, Seq<char>>) -> SchemaView {
    let s1 = add_class(s, t, pm);
    let s2 = add_sub_class(s1, t, pm);
    let s3 = add_property(s2, t, pm);
    let s4 = add_sub_property(s3, t, pm);
    let s5 = add_domain(s4, t, pm);
    let s6 = add_range(s5, t, pm);
    let s7 = add_transitive(s6, t, pm);
    let s8 = add_symmetric(s7, t, pm);
    let s9 = add_functional(s8, t, pm);
    let s10 = add_inverse(s9, t, pm);
    add_rule(s10, t, pm)
}

/// The schema that the lines `ls` describe, with the prefixes `pm`; blank,
/// comment and `@` lines are skipped.
pub open spec fn schema_of(ls: Seq<Seq<char>>, pm: Map<Seq<char>, Seq<char>>) -> SchemaView
    decreases ls.len(),
{
    if ls.len() == 0 {
        empty_schema()
    } else if skipped(ls.last()) {
        schema_of(ls.drop_last(), pm)
    } else {
        apply_line(schema_of(ls.drop_last(), pm), ls.last(), pm)
    }
}

/// The schema a Turtle text describes: its prefix declarations collected
/// first, then every line read with them.
pub open spec fn turtle_schema(text: Seq<char>) -> SchemaView {
    schema_of(trimmed_lines(text), declared_prefixes(trimmed_lines(text)))
}

/// Whether a text can be read: every prefix declaration can be cut where it
/// is cut, and every line whose subject is taken has its first `<` before its
/// first `>`.
pub open spec fn turtle_ok(text: Seq<char>) -> bool {
    forall|i: int|
        0 <= i < trimmed_lines(text).len() ==> {
            let t = #[trigger] trimmed_lines(text)[i];
            &&& is_directive(t) ==> directive_line_ok(t)
            &&& !skipped(t) && reads_subject(t) ==> !subject_fails(t)
        }
}

/// The union of two set-valued maps, key by key.
pub open spec fn union_sets(a: Map<Seq<char>, Set<Seq<char>>>, b: Map<Seq<char>, Set<Seq<char>>>) -> Map<
    Seq<char>,
    Set<Seq<char>>,
> {
    Map::new(
        |k: Seq<char>| a.contains_key(k) || b.contains_key(k),
        |k: Seq<char>|
            if a.contains_key(k) {
                a[k]
            } else {
                Set::empty()
            }.union(
                if b.contains_key(k) {
                    b[k]
                } else {
                    Set::empty()
                },
            ),
    )
}

/// A schema with another merged in: sets united, set-valued maps united key
/// by key, inverse pairs of the other winning, rules appended.
pub open spec fn merged(a: SchemaView, b: SchemaView) -> SchemaView {
    SchemaView {
        classes: a.classes.union(b.classes),
        class_hierarchy: union_sets(a.class_hierarchy, b.class_hierarchy),
        properties: a.properties.union(b.properties),
        property_hierarchy: union_sets(a.property_hierarchy, b.property_hierarchy),
        domains: union_sets(a.domains, b.domains),
        ranges: union_sets(a.ranges, b.ranges),
        transitive_properties: a.transitive_properties.union(b.transitive_properties),
        symmetric_properties: a.symmetric_properties.union(b.symmetric_properties),
        functional_properties: a.functional_properties.union(b.functional_properties),
        inverse_properties: a.inverse_properties.union_prefer_right(b.inverse_properties),
        custom_rules: a.custom_rules + b.custom_rules,
    }
}

/// `p` is a chain of at least two nodes, each above the one before it in `h`.
pub open spec fn is_chain(h: Map<Seq<char>, Set<Seq<char>>>, p: Seq<Seq<char>>) -> bool {
    &&& p.len() >= 2
    &&& forall|i: int| 0 <= i < p.len() - 1 ==> h.contains_key(#[trigger] p[i]) && h[p[i]].contains(p[i + 1])
}

/// Everything reached from `a` in one or more steps up the hierarchy `h`:
/// the transitive closure above `a`.
pub open spec fn ancestors(h: Map<Seq<char>, Set<Seq<char>>>, a: Seq<char>) -> Set<Seq<char>> {
    Set::new(|b: Seq<char>| exists|p: Seq<Seq<char>>| #[trigger] is_chain(h, p) && p[0] == a && p.last() == b)
}

/// Every value in any set of `h`.
pub open spec fn all_values(h: Map<Seq<char>, Set<Seq<char>>>) -> Set<Seq<char>> {
    Set::new(|x: Seq<char>| exists|k: Seq<char>| h.contains_key(k) && #[trigger] h[k].contains(x))
}

/// The union of the value sets of `es`.
pub open spec fn values_union(es: Seq<(String, StringSet)>) -> Set<Seq<char>>
    decreases es.len(),
{
    if es.len() == 0 {
        Set::empty()
    } else {
        values_union(es.drop_last()).union(es.last().1@)
    }
}

proof fn lemma_values_union(es: Seq<(String, StringSet)>)
    ensures
        values_union(es).finite(),
        all_values(pairs_map(es)).subset_of(values_union(es)),
    decreases es.len(),
{
    if es.len() > 0 {
        lemma_values_union(es.drop_last());
        es.last().1.lemma_finite();
        vstd::set::axiom_set_union_finite(values_union(es.drop_last()), es.last().1@);
        let m = pairs_map(es);
        assert forall|x: Seq<char>| all_values(m).contains(x) implies values_union(es).contains(x) by {
            let k = choose|k: Seq<char>| m.contains_key(k) && #[trigger] m[k].contains(x);
            if k != es.last().0@ {
                assert(all_values(pairs_map(es.drop_last())).contains(x));
            }
        }
    }
}

proof fn lemma_chain_step(h: Map<Seq<char>, Set<Seq<char>>>, a: Seq<char>, m: Seq<char>, b: Seq<char>)
    requires
        m == a || ancestors(h, a).contains(m),
        h.contains_key(m),
        h[m].contains(b),
    ensures
        ancestors(h, a).contains(b),
{
    if m == a {
        let p = seq![a, b];
        assert(is_chain(h, p));
        assert(p.last() == b);
    } else {
        let p = choose|p: Seq<Seq<char>>| #[trigger] is_chain(h, p) && p[0] == a && p.last() == m;
        let q = p.push(b);
        assert forall|i: int| 0 <= i < q.len() - 1 implies h.contains_key(#[trigger] q[i]) && h[q[i]].contains(
            q[i + 1],
        ) by {
            if i < p.len() - 1 {
                assert(q[i] == p[i] && q[i + 1] == p[i + 1]);
            } else {
                assert(q[i] == m && q[i + 1] == b);
            }
        }
        assert(is_chain(h, q));
        assert(q[0] == a && q.last() == b);
    }
}

proof fn lemma_closed_complete(h: Map<Seq<char>, Set<Seq<char>>>, a: Seq<char>, r: Set<Seq<char>>, p: Seq<Seq<char>>, k: int)
    requires
        forall|x: Seq<char>| (x == a || r.contains(x)) && h.contains_key(x) ==> #[trigger] h[x].subset_of(r),
        is_chain(h, p),
        p[0] == a,
        1 <= k < p.len(),
    ensures
        r.contains(p[k]),
    decreases k,
{
    let x = p[k - 1];
    if k > 1 {
        lemma_closed_complete(h, a, r, p, k - 1);
    }
    assert(h.contains_key(p[k - 1]) && h[p[k - 1]].contains(p[k]));
    assert(h[x].subset_of(r));
}

/// Everything above `start` in the hierarchy `h`, found by a worklist walk
/// that visits each node once, so cycles end it.
fn ancestors_in(h: &StringKeyMap<StringSet>, start: &str) -> (r: StringSet)
    ensures
        r@ == ancestors(h@, start@),
{
    let ghost hv = h@;
    let ghost a = start@;
    let ghost u = all_values(hv);
    let entries = h.entries();
    proof {
        let es = entries@;
        lemma_values_union(es);
        vstd::set_lib::lemma_set_subset_finite(values_union(es), u);
    }
    let mut result = StringSet::new();
    let mut to_visit: Vec<String> = Vec::new();
    to_visit.push(start.to_owned());
    assert(crate::string_sets::string_views(to_visit@)[0] == a);
    while to_visit.len() > 0
        invariant
            hv == h@,
            a == start@,
            u == all_values(hv),
            u.finite(),
            result@.subset_of(u),
            forall|x: Seq<char>| #[trigger] result@.contains(x) ==> ancestors(hv, a).contains(x),
            forall|i: int| 0 <= i < to_visit@.len() ==> (#[trigger] to_visit@[i])@ == a || result@.contains(to_visit@[i]@),
            forall|x: Seq<char>|
                (x == a || result@.contains(x)) && !crate::string_sets::string_views(to_visit@).contains(x)
                    && hv.contains_key(x) ==> #[trigger] hv[x].subset_of(result@),
        decreases u.len() - result@.len(), to_visit@.len(),
    {
        proof {
            vstd::set_lib::lemma_len_subset(result@, u);
        }
        let ghost r0 = result@;
        let ghost tv0 = to_visit@;
        let current = to_visit.pop().unwrap();
        let ghost cur = current@;
        assert(to_visit@ =~= tv0.drop_last());
        assert(cur == a || r0.contains(cur));
        assert(crate::string_sets::string_views(tv0) =~= crate::string_sets::string_views(to_visit@).push(cur));
        assert forall|x: Seq<char>|
            (x == a || result@.contains(x)) && !crate::string_sets::string_views(to_visit@).contains(x)
                && hv.contains_key(x) && x != cur implies #[trigger] hv[x].subset_of(result@) by {
            assert(!crate::string_sets::string_views(tv0).contains(x)) by {
                if crate::string_sets::string_views(tv0).contains(x) {
                    let k = choose|k: int| 0 <= k < tv0.len() && crate::string_sets::string_views(tv0)[k] == x;
                    if k < tv0.len() - 1 {
                        assert(crate::string_sets::string_views(to_visit@)[k] == x);
                    }
                }
            }
        }
        match h.get(current.as_str()) {
            Some(supers) => {
                let items = supers.items();
                let ghost iv = crate::string_sets::string_views(items@);
                let mut j: usize = 0;
                while j < items.len()
                    invariant
                        j <= items@.len(),
                        iv == crate::string_sets::string_views(items@),
                        iv.to_set() == hv[cur],
                        hv.contains_key(cur),
                        hv == h@,
                        u == all_values(hv),
                        u.finite(),
                        cur == a || r0.contains(cur),
                        r0.subset_of(result@),
                        result@.subset_of(u),
                        forall|x: Seq<char>| #[trigger] result@.contains(x) ==> ancestors(hv, a).contains(x),
                        forall|k: int| 0 <= k < j ==> result@.contains(#[trigger] iv[k]),
                        forall|i: int|
                            0 <= i < to_visit@.len() ==> (#[trigger] to_visit@[i])@ == a || result@.contains(
                                to_visit@[i]@,
                            ),
                        forall|x: Seq<char>|
                            (x == a || result@.contains(x)) && !crate::string_sets::string_views(to_visit@).contains(x)
                                && hv.contains_key(x) && x != cur ==> #[trigger] hv[x].subset_of(result@),
                        to_visit@.len() + r0.len() <= tv0.len() - 1 + result@.len(),
                        result@.finite(),
                        r0.finite(),
                    decreases items@.len() - j,
                {
                    let item = &items[j];
                    assert(iv[j as int] == item@);
                    assert(hv[cur].contains(item@));
                    assert(u.contains(item@));
                    proof {
                        lemma_chain_step(hv, a, cur, item@);
                    }
                    let ghost rb = result@;
                    let ghost tvb = to_visit@;
                    let inserted = result.insert(item.clone());
                    if inserted {
                        to_visit.push(item.clone());
                        proof {
                            assert(crate::string_sets::string_views(to_visit@) =~= crate::string_sets::string_views(
                                tvb,
                            ).push(item@));
                            assert(result@.len() == rb.len() + 1);
                        }
                    } else {
                        assert(result@ =~= rb);
                    }
                    proof {
                        assert forall|x: Seq<char>|
                            (x == a || result@.contains(x)) && !crate::string_sets::string_views(to_visit@).contains(x)
                                && hv.contains_key(x) && x != cur implies #[trigger] hv[x].subset_of(result@) by {
                            if inserted && x == item@ {
                                let views = crate::string_sets::string_views(to_visit@);
                                assert(views[views.len() - 1] == x);
                            } else {
                                assert(x == a || rb.contains(x));
                                assert(!crate::string_sets::string_views(tvb).contains(x)) by {
                                    if crate::string_sets::string_views(tvb).contains(x) {
                                        let k = choose|k: int|
                                            0 <= k < tvb.len() && crate::string_sets::string_views(tvb)[k] == x;
                                        assert(crate::string_sets::string_views(to_visit@)[k] == x);
                                    }
                                }
                                assert(hv[x].subset_of(rb));
                            }
                        }
                    }
                    j += 1;
                }
                proof {
                    assert forall|x: Seq<char>| iv.to_set().contains(x) implies result@.contains(x) by {
                        let k = choose|k: int| 0 <= k < iv.len() && iv[k] == x;
                    }
                    assert(hv[cur].subset_of(result@));
                }
            },
            None => {},
        }
        proof {
            vstd::set_lib::lemma_len_subset(result@, u);
            vstd::set_lib::lemma_len_subset(r0, result@);
        }
    }
    proof {
        assert(crate::string_sets::string_views(to_visit@) =~= Seq::<Seq<char>>::empty());
        assert forall|b: Seq<char>| ancestors(hv, a).contains(b) implies result@.contains(b) by {
            let p = choose|p: Seq<Seq<char>>| #[trigger] is_chain(hv, p) && p[0] == a && p.last() == b;
            lemma_closed_complete(hv, a, result@, p, p.len() - 1);
        }
        assert(result@ =~= ancestors(hv, a));
    }
    result
}

impl OntologySchema {
    /// An empty schema.
    pub fn new() -> (r: OntologySchema)
        ensures
            r@ == empty_schema(),
    {
        let r = OntologySchema {
            classes: StringSet::new(),
            class_hierarchy: StringKeyMap::new(),
            properties: StringSet::new(),
            property_hierarchy: StringKeyMap::new(),
            domains: StringKeyMap::new(),
            ranges: StringKeyMap::new(),
            transitive_properties: StringSet::new(),
            symmetric_properties: StringSet::new(),
            functional_properties: StringSet::new(),
            inverse_properties: StringKeyMap::new(),
            custom_rules: Vec::new(),
        };
        assert(rule_views(r.custom_rules@) =~= Seq::<CustomRuleView>::empty());
        r
    }

    /// All superclasses of `class`: everything above it in the class hierarchy.
    pub fn get_all_superclasses(&self, class: &str) -> (r: StringSet)
        ensures
            r@ == ancestors(self@.class_hierarchy, class@),
    {
        ancestors_in(&self.class_hierarchy, class)
    }

    /// All superproperties of `property`: everything above it in the property
    /// hierarchy.
    pub fn get_all_superproperties(&self, property: &str) -> (r: StringSet)
        ensures
            r@ == ancestors(self@.property_hierarchy, property@),
    {
        ancestors_in(&self.property_hierarchy, property)
    }
}

fn read_class(schema: &mut OntologySchema, line: &str, prefixes: &StringKeyMap<String>)
    requires
        reads_subject(line@) ==> !subject_fails(line@),
    ensures
        final(schema)@ == add_class(old(schema)@, line@, prefixes@),
{
    if is_class_definition(line) {
        match extract_subject_with_prefixes(line, prefixes) {
            Some(x) => {
                schema.classes.insert(x);
            },
            None => {},
        }
    }
}

fn read_sub_class(schema: &mut OntologySchema, line: &str, prefixes: &StringKeyMap<String>)
    requires
        reads_subject(line@) ==> !subject_fails(line@),
    ensures
        final(schema)@ == add_sub_class(old(schema)@, line@, prefixes@),
{
    if contains_predicate(line, "subClassOf") {
        let (sub, obj) = extract_subject_object_with_prefixes(line, prefixes);
        match (sub, obj) {
            (Some(a), Some(b)) => {
                schema.class_hierarchy.add(a, b);
            },
            _ => {},
        }
    }
}

fn read_property(schema: &mut OntologySchema, line: &str, prefixes: &StringKeyMap<String>)
    requires
        reads_subject(line@) ==> !subject_fails(line@),
    ensures
        final(schema)@ == add_property(old(schema)@, line@, prefixes@),
{
    if is_property_definition(line) {
        match extract_subject_with_prefixes(line, prefixes) {
            Some(x) => {
                schema.properties.insert(x);
            },
            None => {},
        }
    }
}

fn read_sub_property(schema: &mut OntologySchema, line: &str, prefixes: &StringKeyMap<String>)
    requires
        reads_subject(line@) ==> !subject_fails(line@),
    ensures
        final(schema)@ == add_sub_property(old(schema)@, line@, prefixes@),
{
    if contains_predicate(line, "subPropertyOf") {
        let (sub, obj) = extract_subject_object_with_prefixes(line, prefixes);
        match (sub, obj) {
            (Some(a), Some(b)) => {
                schema.property_hierarchy.add(a, b);
            },
            _ => {},
        }
    }
}

fn read_domain(schema: &mut OntologySchema, line: &str, prefixes: &StringKeyMap<String>)
    requires
        reads_subject(line@) ==> !subject_fails(line@),
    ensures
        final(schema)@ == add_domain(old(schema)@, line@, prefixes@),
{
    if contains_predicate(line, "domain") {
        let (sub, obj) = extract_subject_object_with_prefixes(line, prefixes);
        match (sub, obj) {
            (Some(a), Some(b)) => {
                schema.domains.add(a, b);
            },
            _ => {},
        }
    }
}

fn read_range(schema: &mut OntologySchema, line: &str, prefixes: &StringKeyMap<String>)
    requires
        reads_subject(line@) ==> !subject_fails(line@),
    ensures
        final(schema)@ == add_range(old(schema)@, line@, prefixes@),
{
    if contains_predicate(line, "range") {
        let (sub, obj) = extract_subject_object_with_prefixes(line, prefixes);
        match (sub, obj) {
            (Some(a), Some(b)) => {
                schema.ranges.add(a, b);
            },
            _ => {},
        }
    }
}

fn read_transitive(schema: &mut OntologySchema, line: &str, prefixes: &StringKeyMap<String>)
    requires
        reads_subject(line@) ==> !subject_fails(line@),
    ensures
        final(schema)@ == add_transitive(old(schema)@, line@, prefixes@),
{
    if is_transitive_property(line) {
        match extract_subject_with_prefixes(line, prefixes) {
            Some(x) => {
                schema.transitive_properties.insert(x);
            },
            None => {},
        }
    }
}

fn read_symmetric(schema: &mut OntologySchema, line: &str, prefixes: &StringKeyMap<String>)
    requires
        reads_subject(line@) ==> !subject_fails(line@),
    ensures
        final(schema)@ == add_symmetric(old(schema)@, line@, prefixes@),
{
    if is_symmetric_property(line) {
        match extract_subject_with_prefixes(line, prefixes) {
            Some(x) => {
                schema.symmetric_properties.insert(x);
            },
            None => {},
        }
    }
}

fn read_functional(schema: &mut OntologySchema, line: &str, prefixes: &StringKeyMap<String>)
    requires
        reads_subject(line@) ==> !subject_fails(line@),
    ensures
        final(schema)@ == add_functional(old(schema)@, line@, prefixes@),
{
    if is_functional_property(line) {
        match extract_subject_with_prefixes(line, prefixes) {
            Some(x) => {
                schema.functional_properties.insert(x);
            },
            None => {},
        }
    }
}

fn read_inverse(schema: &mut OntologySchema, line: &str, prefixes: &StringKeyMap<String>)
    requires
        reads_subject(line@) ==> !subject_fails(line@),
    ensures
        final(schema)@ == add_inverse(old(schema)@, line@, prefixes@),
{
    if contains_predicate(line, "inverseOf") {
        let (p1, p2) = extract_subject_object_with_prefixes(line, prefixes);
        match (p1, p2) {
            (Some(a), Some(b)) => {
                schema.inverse_properties.insert(a.clone(), b.clone());
                schema.inverse_properties.insert(b, a);
            },
            _ => {},
        }
    }
}

fn read_rule(schema: &mut OntologySchema, line: &str, prefixes: &StringKeyMap<String>)
    requires
        reads_subject(line@) ==> !subject_fails(line@),
    ensures
        final(schema)@ == add_rule(old(schema)@, line@, prefixes@),
{
    if is_rule_declaration(line) {
        match extract_subject_with_prefixes(line, prefixes) {
            Some(rule_uri) => {
                let rule = CustomRule {
                    id: rule_uri,
                    name: String::new(),
                    head: String::new(),
                    body: String::new(),
                    priority: 0,
                };
                let ghost before = schema.custom_rules@;
                schema.custom_rules.push(rule);
                assert(rule_views(schema.custom_rules@) =~= rule_views(before).push(rule@));
            },
            None => {},
        }
    }
}

/// Adds what one line declares to a schema.
fn read_line(schema: &mut OntologySchema, line: &str, prefixes: &StringKeyMap<String>)
    requires
        reads_subject(line@) ==> !subject_fails(line@),
    ensures
        final(schema)@ == apply_line(old(schema)@, line@, prefixes@),
{
    read_class(schema, line, prefixes);
    read_sub_class(schema, line, prefixes);
    read_property(schema, line, prefixes);
    read_sub_property(schema, line, prefixes);
    read_domain(schema, line, prefixes);
    read_range(schema, line, prefixes);
    read_transitive(schema, line, prefixes);
    read_symmetric(schema, line, prefixes);
    read_functional(schema, line, prefixes);
    read_inverse(schema, line, prefixes);
    read_rule(schema, line, prefixes);
}

fn is_skipped(t: &[char]) -> (r: bool)
    ensures
        r == skipped(t@),
{
    proof {
        reveal_strlit("#");
        reveal_strlit("@");
        assert("#"@ =~= one('#'));
        assert("@"@ =~= one('@'));
    }
    t.len() == 0 || starts_with_text(t, "#") || starts_with_text(t, "@")
}

fn is_directive_line(t: &[char]) -> (r: bool)
    ensures
        r == is_directive(t@),
{
    starts_with_text(t, "@prefix") || starts_with_text(t, "PREFIX")
}

/// Whether reading a line takes its subject.
fn takes_subject(line: &str) -> (r: bool)
    ensures
        r == reads_subject(line@),
{
    proof {
        reveal_strlit("subClassOf");
        reveal_strlit("subPropertyOf");
        reveal_strlit("domain");
        reveal_strlit("range");
        reveal_strlit("inverseOf");
    }
    is_class_definition(line) || contains_predicate(line, "subClassOf") || is_property_definition(line)
        || contains_predicate(line, "subPropertyOf") || contains_predicate(line, "domain") || contains_predicate(
        line,
        "range",
    ) || is_transitive_property(line) || is_symmetric_property(line) || is_functional_property(line)
        || contains_predicate(line, "inverseOf") || is_rule_declaration(line)
}

/// Whether `OntologySchema::from_turtle` can read a text: every prefix
/// declaration can be cut where it is cut, and every line whose subject is
/// taken has no `>` before its first `<`.
pub fn turtle_readable(ttl_content: &str) -> (r: bool)
    ensures
        r == turtle_ok(ttl_content@),
{
    let text = chars_of(ttl_content);
    let lines = lines_of(text.as_slice());
    let ghost ls = trimmed_lines(ttl_content@);
    assert(ls.len() == lines@.len());
    let mut i: usize = 0;
    while i < lines.len()
        invariant
            i <= lines@.len(),
            ls == trimmed_lines(ttl_content@),
            ls.len() == lines@.len(),
            lines@.map_values(|v: Vec<char>| v@) == split_lines(ttl_content@),
            forall|j: int|
                0 <= j < i ==> {
                    let t = #[trigger] ls[j];
                    &&& is_directive(t) ==> directive_line_ok(t)
                    &&& !skipped(t) && reads_subject(t) ==> !subject_fails(t)
                },
        decreases lines@.len() - i,
    {
        let t = trim_chars(lines[i].as_slice());
        assert(t@ == ls[i as int]);
        proof {
            lemma_trim_idempotent(lines@[i as int]@);
        }
        let ts = string_of(t.as_slice());
        if is_directive_line(t.as_slice()) {
            if !prefix_declaration_readable(ts.as_str(), ts.as_str()) {
                assert(!directive_line_ok(t@));
                return false;
            }
            assert(directive_line_ok(t@));
        }
        if !is_skipped(t.as_slice()) && takes_subject(ts.as_str()) && !subject_readable(t.as_slice()) {
            return false;
        }
        i += 1;
    }
    true
}

impl OntologySchema {
    /// Reads a schema from Turtle text, line by line: first the prefix
    /// declarations, then class and property declarations, hierarchy,
    /// domain, range, characteristic, inverse and rule lines, with prefixed
    /// names expanded.
    pub fn from_turtle(ttl_content: &str) -> (r: Result<OntologySchema, ThinkingReasonerError>)
        requires
            turtle_ok(ttl_content@),
        ensures
            r matches Ok(s) && s@ == turtle_schema(ttl_content@),
    {
        let text = chars_of(ttl_content);
        let lines = lines_of(text.as_slice());
        let ghost ls = trimmed_lines(ttl_content@);
        assert(ls.len() == lines@.len());
        let mut prefixes: StringKeyMap<String> = StringKeyMap::new();
        let mut i: usize = 0;
        assert(ls.take(0) =~= Seq::<Seq<char>>::empty());
        while i < lines.len()
            invariant
                i <= lines@.len(),
                ls == trimmed_lines(ttl_content@),
                ls.len() == lines@.len(),
                lines@.map_values(|v: Vec<char>| v@) == split_lines(ttl_content@),
                turtle_ok(ttl_content@),
                prefixes@ == declared_prefixes(ls.take(i as int)),
            decreases lines@.len() - i,
        {
            let t = trim_chars(lines[i].as_slice());
            assert(t@ == ls[i as int]);
            if is_directive_line(t.as_slice()) {
                let ts = string_of(t.as_slice());
                proof {
                    lemma_trim_idempotent(lines@[i as int]@);
                    lemma_directive_line_ok(t@, uppercase(trim(t@)));
                }
                match parse_prefix_declaration(ts.as_str()) {
                    Some((p, u)) => {
                        prefixes.insert(p, u);
                    },
                    None => {},
                }
            }
            assert(ls.take(i + 1).drop_last() =~= ls.take(i as int));
            i += 1;
        }
        assert(ls.take(i as int) =~= ls);
        let mut schema = OntologySchema::new();
        let mut k: usize = 0;
        while k < lines.len()
            invariant
                k <= lines@.len(),
                ls == trimmed_lines(ttl_content@),
                ls.len() == lines@.len(),
                lines@.map_values(|v: Vec<char>| v@) == split_lines(ttl_content@),
                turtle_ok(ttl_content@),
                prefixes@ == declared_prefixes(ls),
                schema@ == schema_of(ls.take(k as int), prefixes@),
            decreases lines@.len() - k,
        {
            let t = trim_chars(lines[k].as_slice());
            assert(t@ == ls[k as int]);
            assert(ls.take(k + 1).drop_last() =~= ls.take(k as int));
            if !is_skipped(t.as_slice()) {
                let ts = string_of(t.as_slice());
                read_line(&mut schema, ts.as_str(), &prefixes);
            }
            k += 1;
        }
        assert(ls.take(k as int) =~= ls);
        Ok(schema)
    }
}

proof fn lemma_take_lacks<V: View>(es: Seq<(String, V)>, i: int)
    requires
        distinct_keys(es),
        0 <= i < es.len(),
    ensures
        !pairs_map(es.take(i)).contains_key(es[i].0@),
        pairs_map(es.take(i + 1)) == pairs_map(es.take(i)).insert(es[i].0@, es[i].1@),
{
    let t = es.take(i);
    assert forall|j: int| 0 <= j < t.len() implies (#[trigger] t[j]).0@ != es[i].0@ by {
        assert(t[j] == es[j]);
    }
    crate::string_sets::lemma_pairs_map_lacks(t, es[i].0@);
    assert(es.take(i + 1).drop_last() =~= t);
}

/// Unites each set of `b` into the set under the same key in `a`.
fn merge_set_maps(a: &mut StringKeyMap<StringSet>, b: &StringKeyMap<StringSet>)
    ensures
        final(a)@ == union_sets(old(a)@, b@),
{
    let es = b.entries();
    let mut i: usize = 0;
    assert(union_sets(a@, pairs_map(es@.take(0))) =~= a@) by {
        assert(es@.take(0) =~= Seq::<(String, StringSet)>::empty());
        assert forall|k: Seq<char>| a@.contains_key(k) implies #[trigger] union_sets(a@, pairs_map(es@.take(0)))[k]
            == a@[k] by {
            assert(a@[k].union(Set::<Seq<char>>::empty()) =~= a@[k]);
        }
    }
    while i < es.len()
        invariant
            i <= es@.len(),
            distinct_keys(es@),
            pairs_map(es@) == b@,
            a@ == union_sets(old(a)@, pairs_map(es@.take(i as int))),
        decreases es@.len() - i,
    {
        let ghost before = a@;
        let ghost k = es@[i as int].0@;
        let ghost v = es@[i as int].1@;
        proof {
            lemma_take_lacks(es@, i as int);
        }
        a.add_all(es[i].0.clone(), &es[i].1);
        proof {
            let p0 = pairs_map(es@.take(i as int));
            let p1 = pairs_map(es@.take(i + 1));
            let target = union_sets(old(a)@, p1);
            assert forall|x: Seq<char>| a@.contains_key(x) implies #[trigger] target[x] == a@[x] by {
                if x == k {
                    let base = if old(a)@.contains_key(k) {
                        old(a)@[k]
                    } else {
                        Set::<Seq<char>>::empty()
                    };
                    assert(before.contains_key(k) == old(a)@.contains_key(k));
                    if old(a)@.contains_key(k) {
                        assert(before[k] =~= old(a)@[k]);
                    }
                    assert(a@[k] =~= base.union(v));
                    assert(target[k] =~= base.union(v));
                }
            }
            assert(a@ =~= target);
        }
        i += 1;
    }
    assert(es@.take(i as int) =~= es@);
}

/// Adds each pair of `b` to `a`, replacing the value of a key already in `a`.
fn merge_string_maps(a: &mut StringKeyMap<String>, b: &StringKeyMap<String>)
    ensures
        final(a)@ == old(a)@.union_prefer_right(b@),
{
    let es = b.entries();
    let mut i: usize = 0;
    assert(old(a)@.union_prefer_right(pairs_map(es@.take(0))) =~= a@) by {
        assert(es@.take(0) =~= Seq::<(String, String)>::empty());
    }
    while i < es.len()
        invariant
            i <= es@.len(),
            distinct_keys(es@),
            pairs_map(es@) == b@,
            a@ == old(a)@.union_prefer_right(pairs_map(es@.take(i as int))),
        decreases es@.len() - i,
    {
        proof {
            lemma_take_lacks(es@, i as int);
        }
        a.insert(es[i].0.clone(), es[i].1.clone());
        assert(a@ =~= old(a)@.union_prefer_right(pairs_map(es@.take(i + 1))));
        i += 1;
    }
    assert(es@.take(i as int) =~= es@);
}

impl OntologySchema {
    /// Merges another schema into this one: every set is united with the
    /// other's, every set-valued map key by key, the other's inverse pairs are
    /// added (replacing this one's for the same property), and its rules are
    /// appended.
    pub fn merge(&mut self, other: &OntologySchema)
        ensures
            final(self)@ == merged(old(self)@, other@),
    {
        self.classes.extend_from(&other.classes);
        merge_set_maps(&mut self.class_hierarchy, &other.class_hierarchy);
        self.properties.extend_from(&other.properties);
        merge_set_maps(&mut self.property_hierarchy, &other.property_hierarchy);
        merge_set_maps(&mut self.domains, &other.domains);
        merge_set_maps(&mut self.ranges, &other.ranges);
        self.transitive_properties.extend_from(&other.transitive_properties);
        self.symmetric_properties.extend_from(&other.symmetric_properties);
        self.functional_properties.extend_from(&other.functional_properties);
        merge_string_maps(&mut self.inverse_properties, &other.inverse_properties);
        let ghost rules0 = rule_views(self.custom_rules@);
        let ghost pre = self@;
        let mut i: usize = 0;
        assert(rule_views(other.custom_rules@).take(0) =~= Seq::<CustomRuleView>::empty());
        assert(rules0 + rule_views(other.custom_rules@).take(0) =~= rules0);
        while i < other.custom_rules.len()
            invariant
                i <= other.custom_rules@.len(),
                rule_views(self.custom_rules@) == rules0 + rule_views(other.custom_rules@).take(i as int),
                self@ == (SchemaView { custom_rules: self@.custom_rules, ..pre }),
            decreases other.custom_rules@.len() - i,
        {
            let r = other.custom_rules[i].duplicate();
            let ghost before = self.custom_rules@;
            self.custom_rules.push(r);
            assert(rule_views(self.custom_rules@) =~= rule_views(before).push(r@));
            assert(rule_views(other.custom_rules@).take(i + 1) =~= rule_views(other.custom_rules@).take(i as int).push(
                r@,
            ));
            i += 1;
        }
        assert(rule_views(other.custom_rules@).take(i as int) =~= rule_views(other.custom_rules@));
        assert(self@ =~= merged(old(self)@, other@));
    }
}

impl Default for OntologySchema {
    fn default() -> (r: OntologySchema)
        ensures
            r@ == empty_schema(),
    {
        OntologySchema::new()
    }
}

/// `owl:inverseOf` is symmetric: after reading a line `A owl:inverseOf B`
/// whose two terms can be read, the schema's inverse map sends `A` to `B`
/// and `B` to `A`, whatever the schema held before.
pub proof fn lemma_inverse_recorded_both_ways(
    s: SchemaView,
    t: Seq<char>,
    pm: Map<Seq<char>, Seq<char>>,
    a: Seq<char>,
    b: Seq<char>,
)
    requires
        has_predicate_spec(t, "inverseOf"@),
        subject_of(t, pm) == Some(a),
        object_of(t, pm) == Some(b),
    ensures
        apply_line(s, t, pm).inverse_properties.contains_key(a),
        apply_line(s, t, pm).inverse_properties[a] == b,
        apply_line(s, t, pm).inverse_properties.contains_key(b),
        apply_line(s, t, pm).inverse_properties[b] == a,
{
}

/// Reading a line records each relation it states from its subject `A` to
/// its object `B`, in that direction and whatever the schema held before:
/// `A rdfs:subClassOf B` puts `B` among `A`'s superclasses, `A
/// rdfs:subPropertyOf B` among `A`'s superproperties, `A rdfs:domain B`
/// among `A`'s domains and `A rdfs:range B` among `A`'s ranges; and every
/// class, property or characteristic declaration names its subject.
pub proof fn lemma_line_relations_recorded(
    s: SchemaView,
    t: Seq<char>,
    pm: Map<Seq<char>, Seq<char>>,
    a: Seq<char>,
    b: Seq<char>,
)
    requires
        subject_of(t, pm) == Some(a),
        object_of(t, pm) == Some(b),
    ensures
        has_predicate_spec(t, "subClassOf"@) ==> apply_line(s, t, pm).class_hierarchy.contains_key(a) && apply_line(
            s,
            t,
            pm,
        ).class_hierarchy[a].contains(b),
        has_predicate_spec(t, "subPropertyOf"@) ==> apply_line(s, t, pm).property_hierarchy.contains_key(a)
            && apply_line(s, t, pm).property_hierarchy[a].contains(b),
        has_predicate_spec(t, "domain"@) ==> apply_line(s, t, pm).domains.contains_key(a) && apply_line(
            s,
            t,
            pm,
        ).domains[a].contains(b),
        has_predicate_spec(t, "range"@) ==> apply_line(s, t, pm).ranges.contains_key(a) && apply_line(
            s,
            t,
            pm,
        ).ranges[a].contains(b),
        is_class_spec(t) ==> apply_line(s, t, pm).classes.contains(a),
        is_property_spec(t) ==> apply_line(s, t, pm).properties.contains(a),
        is_transitive_spec(t) ==> apply_line(s, t, pm).transitive_properties.contains(a),
        is_symmetric_spec(t) ==> apply_line(s, t, pm).symmetric_properties.contains(a),
        is_functional_spec(t) ==> apply_line(s, t, pm).functional_properties.contains(a),
{
}

} // verus!
