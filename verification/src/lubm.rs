//! The Lehigh University Benchmark data set: universities of fifteen
//! departments, each with faculty, students and courses, as N-Triples lines.
use vstd::prelude::*;
use crate::string_sets::{push_string, string_views};
use crate::text::{decimal, push_decimal, push_str, string_of};

verus! {

/// The benchmark ontology's namespace.
pub const UB: &'static str = "http://swat.cse.lehigh.edu/onto/univ-bench.owl#";

/// The RDF namespace.
pub const RDF: &'static str = "http://www.w3.org/1999/02/22-rdf-syntax-ns#";

/// The RDF Schema namespace.
pub const RDFS: &'static str = "http://www.w3.org/2000/01/rdf-schema#";

/// `<x>`.
pub open spec fn iri(x: Seq<char>) -> Seq<char> {
    "<"@ + x + ">"@
}

/// `"x"`.
pub open spec fn lit(x: Seq<char>) -> Seq<char> {
    "\""@ + x + "\""@
}

/// A statement line: subject, predicate, object, then ` .`.
pub open spec fn stmt(s: Seq<char>, p: Seq<char>, o: Seq<char>) -> Seq<char> {
    s + " "@ + p + " "@ + o + " ."@
}

/// A statement line whose object is followed by two spaces before the `.`.
pub open spec fn stmt_wide(s: Seq<char>, p: Seq<char>, o: Seq<char>) -> Seq<char> {
    s + " "@ + p + " "@ + o + "  ."@
}

/// A term of the benchmark ontology, as an IRI.
pub open spec fn ub(local: Seq<char>) -> Seq<char> {
    iri(UB@ + local)
}

/// The `rdf:type` predicate.
pub open spec fn rdf_type() -> Seq<char> {
    iri(RDF@ + "type"@)
}

/// The IRI of university `u`.
pub open spec fn university_uri(u: nat) -> Seq<char> {
    "http://www.University"@ + decimal(u) + ".edu"@
}

/// The IRI of department `d` of university `u`.
pub open spec fn department_uri(u: nat, d: nat) -> Seq<char> {
    university_uri(u) + "/Department"@ + decimal(d)
}

/// The rank of faculty member `i`: full, associate, assistant, in turn.
pub open spec fn faculty_kind(i: nat) -> Seq<char> {
    if i % 3 == 0 {
        "FullProfessor"@
    } else if i % 3 == 1 {
        "AssociateProfessor"@
    } else {
        "AssistantProfessor"@
    }
}

/// The value of a [`Department`].
pub struct DepartmentView {
    /// University number.
    pub univ: nat,
    /// Department number.
    pub dept: nat,
    /// Faculty members.
    pub faculty: nat,
    /// Graduate students.
    pub grads: nat,
    /// Undergraduate students.
    pub undergrads: nat,
    /// Courses.
    pub courses: nat,
}

/// The lines about faculty member `i`: type, name, employer, membership,
/// e-mail, the two courses taught, and two publications.
#[verifier::opaque]
pub open spec fn faculty_lines(d: DepartmentView, i: nat) -> Seq<Seq<char>> {
    let uri = department_uri(d.univ, d.dept);
    let kind = faculty_kind(i);
    let f = uri + "/"@ + kind + decimal(i);
    let c0 = ((i * 2) % d.courses) as nat;
    let c1 = ((i * 2 + 1) % d.courses) as nat;
    seq![
        stmt_wide(iri(f), rdf_type(), ub(kind)),
        stmt(iri(f), ub("name"@), lit(kind + " "@ + decimal(i))),
        stmt(iri(f), ub("worksFor"@), iri(uri)),
        stmt(iri(f), ub("memberOf"@), iri(uri)),
        stmt(iri(f), ub("emailAddress"@), lit(kind + decimal(i) + "@University"@ + decimal(d.univ) + ".edu"@)),
        stmt(iri(f), ub("teacherOf"@), iri(uri + "/Course"@ + decimal(c0))),
        stmt(iri(f), ub("teacherOf"@), iri(uri + "/Course"@ + decimal(c1))),
    ] + publication_lines(f, i, 0) + publication_lines(f, i, 1)
}

/// The lines about publication `p` of the faculty member `f` numbered `i`.
#[verifier::opaque]
pub open spec fn publication_lines(f: Seq<char>, i: nat, p: nat) -> Seq<Seq<char>> {
    let pu = f + "/Publication"@ + decimal(p);
    seq![
        stmt(iri(pu), rdf_type(), ub("Publication"@)),
        stmt(iri(pu), ub("name"@), lit("Publication"@ + decimal(i) + "_"@ + decimal(p))),
        stmt(iri(pu), ub("publicationAuthor"@), iri(f)),
    ]
}

/// The lines about graduate student `i`: type, name, membership, e-mail,
/// advisor, and three courses taken.
#[verifier::opaque]
pub open spec fn grad_lines(d: DepartmentView, i: nat) -> Seq<Seq<char>> {
    let uri = department_uri(d.univ, d.dept);
    let s = uri + "/GraduateStudent"@ + decimal(i);
    let adv = (i % d.faculty) as nat;
    seq![
        stmt(iri(s), rdf_type(), ub("GraduateStudent"@)),
        stmt(iri(s), ub("name"@), lit("GraduateStudent"@ + decimal(i))),
        stmt(iri(s), ub("memberOf"@), iri(uri)),
        stmt(iri(s), ub("emailAddress"@), lit("GraduateStudent"@ + decimal(i) + "@University"@ + decimal(d.univ) + ".edu"@)),
        stmt(iri(s), ub("advisor"@), iri(uri + "/"@ + faculty_kind(adv) + decimal(adv))),
        stmt(iri(s), ub("takesCourse"@), iri(uri + "/Course"@ + decimal(((i) % d.courses) as nat))),
        stmt(iri(s), ub("takesCourse"@), iri(uri + "/Course"@ + decimal(((i + 1) % d.courses) as nat))),
        stmt(iri(s), ub("takesCourse"@), iri(uri + "/Course"@ + decimal(((i + 2) % d.courses) as nat))),
    ]
}

/// The lines about undergraduate student `i`: type, name, membership, e-mail,
/// and two courses taken.
#[verifier::opaque]
pub open spec fn undergrad_lines(d: DepartmentView, i: nat) -> Seq<Seq<char>> {
    let uri = department_uri(d.univ, d.dept);
    let s = uri + "/UndergraduateStudent"@ + decimal(i);
    seq![
        stmt(iri(s), rdf_type(), ub("UndergraduateStudent"@)),
        stmt(iri(s), ub("name"@), lit("UndergraduateStudent"@ + decimal(i))),
        stmt(iri(s), ub("memberOf"@), iri(uri)),
        stmt(iri(s), ub("emailAddress"@), lit("UndergraduateStudent"@ + decimal(i) + "@University"@ + decimal(d.univ) + ".edu"@)),
        stmt(iri(s), ub("takesCourse"@), iri(uri + "/Course"@ + decimal(((i) % d.courses) as nat))),
        stmt(iri(s), ub("takesCourse"@), iri(uri + "/Course"@ + decimal(((i + 1) % d.courses) as nat))),
    ]
}

/// The lines about course `i`: type (the first half are graduate courses) and name.
#[verifier::opaque]
pub open spec fn course_lines(d: DepartmentView, i: nat) -> Seq<Seq<char>> {
    let uri = department_uri(d.univ, d.dept);
    let c = uri + "/Course"@ + decimal(i);
    let kind = if i < d.courses / 2 {
        "GraduateCourse"@
    } else {
        "Course"@
    };
    seq![stmt_wide(iri(c), rdf_type(), ub(kind)), stmt(iri(c), ub("name"@), lit("Course"@ + decimal(i)))]
}

/// The lines of the first `n` members of a group, one after another.
pub open spec fn block(d: DepartmentView, n: nat, lines: spec_fn(DepartmentView, nat) -> Seq<Seq<char>>) -> Seq<
    Seq<char>,
>
    decreases n,
{
    if n == 0 {
        Seq::empty()
    } else {
        block(d, (n - 1) as nat, lines) + lines(d, (n - 1) as nat)
    }
}

/// Every line about a department: its type and name, then its faculty,
/// graduate students, undergraduate students and courses.
#[verifier::opaque]
pub open spec fn department_lines(d: DepartmentView) -> Seq<Seq<char>> {
    let uri = department_uri(d.univ, d.dept);
    seq![
        stmt(iri(uri), rdf_type(), ub("Department"@)),
        stmt(iri(uri), ub("name"@), lit("Department"@ + decimal(d.dept))),
    ] + block(d, d.faculty, faculty_fn()) + block(d, d.grads, grad_fn()) + block(d, d.undergrads, undergrad_fn())
        + block(d, d.courses, course_fn())
}

/// The faculty lines, as a function of the department and member number.
pub open spec fn faculty_fn() -> spec_fn(DepartmentView, nat) -> Seq<Seq<char>> {
    |d: DepartmentView, i: nat| faculty_lines(d, i)
}

/// The graduate student lines, as a function.
pub open spec fn grad_fn() -> spec_fn(DepartmentView, nat) -> Seq<Seq<char>> {
    |d: DepartmentView, i: nat| grad_lines(d, i)
}

/// The undergraduate student lines, as a function.
pub open spec fn undergrad_fn() -> spec_fn(DepartmentView, nat) -> Seq<Seq<char>> {
    |d: DepartmentView, i: nat| undergrad_lines(d, i)
}

/// The course lines, as a function.
pub open spec fn course_fn() -> spec_fn(DepartmentView, nat) -> Seq<Seq<char>> {
    |d: DepartmentView, i: nat| course_lines(d, i)
}

fn push_iri(out: &mut Vec<char>, x: &[char])
    ensures
        final(out)@ == old(out)@ + iri(x@),
{
    push_str(out, "<");
    let mut i: usize = 0;
    let ghost start = out@;
    while i < x.len()
        invariant
            i <= x@.len(),
            out@ == start + x@.take(i as int),
        decreases x@.len() - i,
    {
        out.push(x[i]);
        i += 1;
        assert(out@ =~= start + x@.take(i as int));
    }
    assert(x@.take(i as int) =~= x@);
    push_str(out, ">");
    assert(out@ =~= old(out)@ + iri(x@));
}

fn ub_term(local: &str) -> (r: Vec<char>)
    ensures
        r@ == ub(local@),
{
    let mut inner: Vec<char> = Vec::new();
    push_str(&mut inner, UB);
    push_str(&mut inner, local);
    let mut out: Vec<char> = Vec::new();
    push_iri(&mut out, inner.as_slice());
    out
}

fn type_term() -> (r: Vec<char>)
    ensures
        r@ == rdf_type(),
{
    let mut inner: Vec<char> = Vec::new();
    push_str(&mut inner, RDF);
    push_str(&mut inner, "type");
    let mut out: Vec<char> = Vec::new();
    push_iri(&mut out, inner.as_slice());
    out
}

fn iri_of(x: &[char]) -> (r: Vec<char>)
    ensures
        r@ == iri(x@),
{
    let mut out: Vec<char> = Vec::new();
    push_iri(&mut out, x);
    out
}

fn append(out: &mut Vec<char>, x: &[char])
    ensures
        final(out)@ == old(out)@ + x@,
{
    let mut i: usize = 0;
    while i < x.len()
        invariant
            i <= x@.len(),
            out@ == old(out)@ + x@.take(i as int),
        decreases x@.len() - i,
    {
        out.push(x[i]);
        i += 1;
        assert(out@ =~= old(out)@ + x@.take(i as int));
    }
    assert(x@.take(i as int) =~= x@);
}

fn lit_of(x: &[char]) -> (r: Vec<char>)
    ensures
        r@ == lit(x@),
{
    let mut out: Vec<char> = Vec::new();
    push_str(&mut out, "\"");
    append(&mut out, x);
    push_str(&mut out, "\"");
    out
}

fn stmt_line(s: &[char], p: &[char], o: &[char], wide: bool) -> (r: String)
    ensures
        r@ == if wide {
            stmt_wide(s@, p@, o@)
        } else {
            stmt(s@, p@, o@)
        },
{
    let mut out: Vec<char> = Vec::new();
    append(&mut out, s);
    push_str(&mut out, " ");
    append(&mut out, p);
    push_str(&mut out, " ");
    append(&mut out, o);
    if wide {
        push_str(&mut out, "  .");
    } else {
        push_str(&mut out, " .");
    }
    string_of(out.as_slice())
}

fn text_with_number(head: &[char], text: &str, n: u64) -> (r: Vec<char>)
    ensures
        r@ == head@ + text@ + decimal(n as nat),
{
    let mut out: Vec<char> = Vec::new();
    append(&mut out, head);
    push_str(&mut out, text);
    push_decimal(&mut out, n);
    out
}

/// A department of a university.
pub struct Department {
    univ_id: usize,
    dept_id: usize,
    num_faculty: usize,
    num_grad_students: usize,
    num_undergrad_students: usize,
    num_courses: usize,
}

impl View for Department {
    type V = DepartmentView;

    closed spec fn view(&self) -> DepartmentView {
        DepartmentView {
            univ: self.univ_id as nat,
            dept: self.dept_id as nat,
            faculty: self.num_faculty as nat,
            grads: self.num_grad_students as nat,
            undergrads: self.num_undergrad_students as nat,
            courses: self.num_courses as nat,
        }
    }
}

impl Department {
    #[verifier::type_invariant]
    spec fn sizes(&self) -> bool {
        &&& self.num_faculty == 7
        &&& self.num_grad_students == 10
        &&& self.num_undergrad_students == 4
        &&& self.num_courses == 10
    }

    /// Department `dept_id` of university `univ_id`: seven faculty, ten
    /// graduate and four undergraduate students, ten courses.
    pub fn new(univ_id: usize, dept_id: usize) -> (r: Department)
        ensures
            r@ == (DepartmentView {
                univ: univ_id as nat,
                dept: dept_id as nat,
                faculty: 7,
                grads: 10,
                undergrads: 4,
                courses: 10,
            }),
    {
        Department {
            univ_id,
            dept_id,
            num_faculty: 7,
            num_grad_students: 10,
            num_undergrad_students: 4,
            num_courses: 10,
        }
    }

    /// The department's IRI.
    pub fn uri(&self) -> (r: String)
        ensures
            r@ == department_uri(self@.univ, self@.dept),
    {
        string_of(self.uri_chars().as_slice())
    }

    fn uri_chars(&self) -> (r: Vec<char>)
        ensures
            r@ == department_uri(self@.univ, self@.dept),
    {
        let mut out: Vec<char> = Vec::new();
        push_str(&mut out, "http://www.University");
        push_decimal(&mut out, self.univ_id as u64);
        push_str(&mut out, ".edu");
        push_str(&mut out, "/Department");
        push_decimal(&mut out, self.dept_id as u64);
        assert(out@ =~= department_uri(self@.univ, self@.dept));
        out
    }
}

fn copy_chars(x: &[char]) -> (r: Vec<char>)
    ensures
        r@ == x@,
{
    let mut out: Vec<char> = Vec::new();
    append(&mut out, x);
    out
}

fn faculty_kind_text(i: usize) -> (r: &'static str)
    ensures
        r@ == faculty_kind(i as nat),
{
    if i % 3 == 0 {
        "FullProfessor"
    } else if i % 3 == 1 {
        "AssociateProfessor"
    } else {
        "AssistantProfessor"
    }
}

fn course_iri(uri: &[char], c: usize) -> (r: Vec<char>)
    ensures
        r@ == iri(uri@ + "/Course"@ + decimal(c as nat)),
{
    let path = text_with_number(uri, "/Course", c as u64);
    iri_of(path.as_slice())
}

fn publication_rdf(out: &mut Vec<String>, f: &[char], i: usize, p: usize)
    ensures
        string_views(final(out)@) == string_views(old(out)@) + publication_lines(f@, i as nat, p as nat),
{
    let pu = text_with_number(f, "/Publication", p as u64);
    let pi = iri_of(pu.as_slice());
    let ty = type_term();
    let name = ub_term("name");
    let mut nm: Vec<char> = Vec::new();
    push_str(&mut nm, "Publication");
    push_decimal(&mut nm, i as u64);
    push_str(&mut nm, "_");
    push_decimal(&mut nm, p as u64);
    let nl = lit_of(nm.as_slice());
    let fi = iri_of(f);
    let ghost before = string_views(out@);
    push_string(out, stmt_line(pi.as_slice(), ty.as_slice(), ub_term("Publication").as_slice(), false));
    push_string(out, stmt_line(pi.as_slice(), name.as_slice(), nl.as_slice(), false));
    push_string(out, stmt_line(pi.as_slice(), ub_term("publicationAuthor").as_slice(), fi.as_slice(), false));
    assert(nm@ =~= "Publication"@ + decimal(i as nat) + "_"@ + decimal(p as nat));
    reveal(publication_lines);
    assert(string_views(out@) =~= before + publication_lines(f@, i as nat, p as nat));
}

impl Department {
    fn faculty_rdf(&self, out: &mut Vec<String>, uri: &[char], i: usize)
        requires
            uri@ == department_uri(self@.univ, self@.dept),
            i < self@.faculty,
        ensures
            string_views(final(out)@) == string_views(old(out)@) + faculty_lines(self@, i as nat),
    {
        proof {
            use_type_invariant(self);
        }
        let ghost d = self@;
        let ghost before = string_views(out@);
        let kind = faculty_kind_text(i);
        let mut f = copy_chars(uri);
        push_str(&mut f, "/");
        push_str(&mut f, kind);
        push_decimal(&mut f, i as u64);
        let fi = iri_of(f.as_slice());
        let ui = iri_of(uri);
        let ty = type_term();
        let mut nm: Vec<char> = Vec::new();
        push_str(&mut nm, kind);
        push_str(&mut nm, " ");
        push_decimal(&mut nm, i as u64);
        let mut mail: Vec<char> = Vec::new();
        push_str(&mut mail, kind);
        push_decimal(&mut mail, i as u64);
        push_str(&mut mail, "@University");
        push_decimal(&mut mail, self.univ_id as u64);
        push_str(&mut mail, ".edu");
        let c0 = (i * 2) % self.num_courses;
        let c1 = (i * 2 + 1) % self.num_courses;
        push_string(out, stmt_line(fi.as_slice(), ty.as_slice(), ub_term(kind).as_slice(), true));
        push_string(out, stmt_line(fi.as_slice(), ub_term("name").as_slice(), lit_of(nm.as_slice()).as_slice(), false));
        push_string(out, stmt_line(fi.as_slice(), ub_term("worksFor").as_slice(), ui.as_slice(), false));
        push_string(out, stmt_line(fi.as_slice(), ub_term("memberOf").as_slice(), ui.as_slice(), false));
        push_string(
            out,
            stmt_line(fi.as_slice(), ub_term("emailAddress").as_slice(), lit_of(mail.as_slice()).as_slice(), false),
        );
        push_string(out, stmt_line(fi.as_slice(), ub_term("teacherOf").as_slice(), course_iri(uri, c0).as_slice(), false));
        push_string(out, stmt_line(fi.as_slice(), ub_term("teacherOf").as_slice(), course_iri(uri, c1).as_slice(), false));
        let ghost mid = string_views(out@);
        publication_rdf(out, f.as_slice(), i, 0);
        publication_rdf(out, f.as_slice(), i, 1);
        proof {
            let kd = faculty_kind(i as nat);
            assert(f@ =~= uri@ + "/"@ + kd + decimal(i as nat));
            assert(nm@ =~= kd + " "@ + decimal(i as nat));
            assert(mail@ =~= kd + decimal(i as nat) + "@University"@ + decimal(d.univ) + ".edu"@);
            reveal(faculty_lines);
            reveal(publication_lines);
            assert(string_views(out@) =~= before + faculty_lines(d, i as nat));
        }
    }

    fn grad_rdf(&self, out: &mut Vec<String>, uri: &[char], i: usize)
        requires
            uri@ == department_uri(self@.univ, self@.dept),
            i < self@.grads,
        ensures
            string_views(final(out)@) == string_views(old(out)@) + grad_lines(self@, i as nat),
    {
        proof {
            use_type_invariant(self);
        }
        let ghost d = self@;
        let ghost before = string_views(out@);
        let st = text_with_number(uri, "/GraduateStudent", i as u64);
        let si = iri_of(st.as_slice());
        let ui = iri_of(uri);
        let ty = type_term();
        let empty: Vec<char> = Vec::new();
        let nm = text_with_number(empty.as_slice(), "GraduateStudent", i as u64);
        let mut mail = copy_chars(nm.as_slice());
        push_str(&mut mail, "@University");
        push_decimal(&mut mail, self.univ_id as u64);
        push_str(&mut mail, ".edu");
        let adv = i % self.num_faculty;
        let mut ap = copy_chars(uri);
        push_str(&mut ap, "/");
        push_str(&mut ap, faculty_kind_text(adv));
        push_decimal(&mut ap, adv as u64);
        push_string(out, stmt_line(si.as_slice(), ty.as_slice(), ub_term("GraduateStudent").as_slice(), false));
        push_string(out, stmt_line(si.as_slice(), ub_term("name").as_slice(), lit_of(nm.as_slice()).as_slice(), false));
        push_string(out, stmt_line(si.as_slice(), ub_term("memberOf").as_slice(), ui.as_slice(), false));
        push_string(
            out,
            stmt_line(si.as_slice(), ub_term("emailAddress").as_slice(), lit_of(mail.as_slice()).as_slice(), false),
        );
        push_string(out, stmt_line(si.as_slice(), ub_term("advisor").as_slice(), iri_of(ap.as_slice()).as_slice(), false));
        push_string(
            out,
            stmt_line(si.as_slice(), ub_term("takesCourse").as_slice(), course_iri(uri, i % self.num_courses).as_slice(), false),
        );
        push_string(
            out,
            stmt_line(
                si.as_slice(),
                ub_term("takesCourse").as_slice(),
                course_iri(uri, (i + 1) % self.num_courses).as_slice(),
                false,
            ),
        );
        push_string(
            out,
            stmt_line(
                si.as_slice(),
                ub_term("takesCourse").as_slice(),
                course_iri(uri, (i + 2) % self.num_courses).as_slice(),
                false,
            ),
        );
        proof {
            assert(nm@ =~= "GraduateStudent"@ + decimal(i as nat));
            assert(mail@ =~= "GraduateStudent"@ + decimal(i as nat) + "@University"@ + decimal(d.univ) + ".edu"@);
            assert(ap@ =~= uri@ + "/"@ + faculty_kind(adv as nat) + decimal(adv as nat));
            reveal(grad_lines);
            assert(string_views(out@) =~= before + grad_lines(d, i as nat));
        }
    }

    fn undergrad_rdf(&self, out: &mut Vec<String>, uri: &[char], i: usize)
        requires
            uri@ == department_uri(self@.univ, self@.dept),
            i < self@.undergrads,
        ensures
            string_views(final(out)@) == string_views(old(out)@) + undergrad_lines(self@, i as nat),
    {
        proof {
            use_type_invariant(self);
        }
        let ghost d = self@;
        let ghost before = string_views(out@);
        let st = text_with_number(uri, "/UndergraduateStudent", i as u64);
        let si = iri_of(st.as_slice());
        let ui = iri_of(uri);
        let ty = type_term();
        let empty: Vec<char> = Vec::new();
        let nm = text_with_number(empty.as_slice(), "UndergraduateStudent", i as u64);
        let mut mail = copy_chars(nm.as_slice());
        push_str(&mut mail, "@University");
        push_decimal(&mut mail, self.univ_id as u64);
        push_str(&mut mail, ".edu");
        push_string(out, stmt_line(si.as_slice(), ty.as_slice(), ub_term("UndergraduateStudent").as_slice(), false));
        push_string(out, stmt_line(si.as_slice(), ub_term("name").as_slice(), lit_of(nm.as_slice()).as_slice(), false));
        push_string(out, stmt_line(si.as_slice(), ub_term("memberOf").as_slice(), ui.as_slice(), false));
        push_string(
            out,
            stmt_line(si.as_slice(), ub_term("emailAddress").as_slice(), lit_of(mail.as_slice()).as_slice(), false),
        );
        push_string(
            out,
            stmt_line(si.as_slice(), ub_term("takesCourse").as_slice(), course_iri(uri, i % self.num_courses).as_slice(), false),
        );
        push_string(
            out,
            stmt_line(
                si.as_slice(),
                ub_term("takesCourse").as_slice(),
                course_iri(uri, (i + 1) % self.num_courses).as_slice(),
                false,
            ),
        );
        proof {
            assert(nm@ =~= "UndergraduateStudent"@ + decimal(i as nat));
            assert(mail@ =~= "UndergraduateStudent"@ + decimal(i as nat) + "@University"@ + decimal(d.univ) + ".edu"@);
            reveal(undergrad_lines);
            assert(string_views(out@) =~= before + undergrad_lines(d, i as nat));
        }
    }

    fn course_rdf(&self, out: &mut Vec<String>, uri: &[char], i: usize)
        requires
            uri@ == department_uri(self@.univ, self@.dept),
            i < self@.courses,
        ensures
            string_views(final(out)@) == string_views(old(out)@) + course_lines(self@, i as nat),
    {
        proof {
            use_type_invariant(self);
        }
        let ghost d = self@;
        let ghost before = string_views(out@);
        let ci = course_iri(uri, i);
        let kind = if i < self.num_courses / 2 {
            "GraduateCourse"
        } else {
            "Course"
        };
        let empty: Vec<char> = Vec::new();
        let nm = text_with_number(empty.as_slice(), "Course", i as u64);
        push_string(out, stmt_line(ci.as_slice(), type_term().as_slice(), ub_term(kind).as_slice(), true));
        push_string(out, stmt_line(ci.as_slice(), ub_term("name").as_slice(), lit_of(nm.as_slice()).as_slice(), false));
        proof {
            assert(nm@ =~= "Course"@ + decimal(i as nat));
            reveal(course_lines);
            assert(string_views(out@) =~= before + course_lines(d, i as nat));
        }
    }
}

proof fn lemma_block_step(d: DepartmentView, n: nat, f: spec_fn(DepartmentView, nat) -> Seq<Seq<char>>)
    ensures
        block(d, n + 1, f) == block(d, n, f) + f(d, n),
{
}

impl Department {
    /// Every line about the department, in order: its type and name, then its
    /// faculty, graduate students, undergraduate students and courses.
    pub fn generate_rdf(&self) -> (r: Vec<String>)
        ensures
            string_views(r@) == department_lines(self@),
    {
        let ghost d = self@;
        let uri = self.uri_chars();
        let ui = iri_of(uri.as_slice());
        let mut out: Vec<String> = Vec::new();
        let empty: Vec<char> = Vec::new();
        let nm = text_with_number(empty.as_slice(), "Department", self.dept_id as u64);
        push_string(&mut out, stmt_line(ui.as_slice(), type_term().as_slice(), ub_term("Department").as_slice(), false));
        push_string(&mut out, stmt_line(ui.as_slice(), ub_term("name").as_slice(), lit_of(nm.as_slice()).as_slice(), false));
        assert(nm@ =~= "Department"@ + decimal(d.dept));
        let ghost head = string_views(out@);
        let mut i: usize = 0;
        assert(head =~= head + block(d, 0, faculty_fn()));
        while i < self.num_faculty
            invariant
                d == self@,
                i <= d.faculty,
                uri@ == department_uri(d.univ, d.dept),
                string_views(out@) == head + block(d, i as nat, faculty_fn()),
            decreases d.faculty - i,
        {
            self.faculty_rdf(&mut out, uri.as_slice(), i);
            proof {
                lemma_block_step(d, i as nat, faculty_fn());
            }
            assert(string_views(out@) =~= head + block(d, (i + 1) as nat, faculty_fn()));
            i += 1;
        }
        let ghost h2 = string_views(out@);
        let mut i: usize = 0;
        assert(h2 =~= h2 + block(d, 0, grad_fn()));
        while i < self.num_grad_students
            invariant
                d == self@,
                i <= d.grads,
                uri@ == department_uri(d.univ, d.dept),
                string_views(out@) == h2 + block(d, i as nat, grad_fn()),
            decreases d.grads - i,
        {
            self.grad_rdf(&mut out, uri.as_slice(), i);
            proof {
                lemma_block_step(d, i as nat, grad_fn());
            }
            assert(string_views(out@) =~= h2 + block(d, (i + 1) as nat, grad_fn()));
            i += 1;
        }
        let ghost h3 = string_views(out@);
        let mut i: usize = 0;
        assert(h3 =~= h3 + block(d, 0, undergrad_fn()));
        while i < self.num_undergrad_students
            invariant
                d == self@,
                i <= d.undergrads,
                uri@ == department_uri(d.univ, d.dept),
                string_views(out@) == h3 + block(d, i as nat, undergrad_fn()),
            decreases d.undergrads - i,
        {
            self.undergrad_rdf(&mut out, uri.as_slice(), i);
            proof {
                lemma_block_step(d, i as nat, undergrad_fn());
            }
            assert(string_views(out@) =~= h3 + block(d, (i + 1) as nat, undergrad_fn()));
            i += 1;
        }
        let ghost h4 = string_views(out@);
        let mut i: usize = 0;
        assert(h4 =~= h4 + block(d, 0, course_fn()));
        while i < self.num_courses
            invariant
                d == self@,
                i <= d.courses,
                uri@ == department_uri(d.univ, d.dept),
                string_views(out@) == h4 + block(d, i as nat, course_fn()),
            decreases d.courses - i,
        {
            self.course_rdf(&mut out, uri.as_slice(), i);
            proof {
                lemma_block_step(d, i as nat, course_fn());
            }
            assert(string_views(out@) =~= h4 + block(d, (i + 1) as nat, course_fn()));
            i += 1;
        }
        proof {
            reveal(department_lines);
        }
        assert(string_views(out@) =~= department_lines(d));
        out
    }
}

/// The value of a [`University`].
pub struct UniversityView {
    /// University number.
    pub id: nat,
    /// Number of departments.
    pub departments: nat,
}

/// The standard department `d` of university `u`.
pub open spec fn standard_department(u: nat, d: nat) -> DepartmentView {
    DepartmentView { univ: u, dept: d, faculty: 7, grads: 10, undergrads: 4, courses: 10 }
}

/// The lines of the first `n` departments of university `u`, each followed by
/// the line that makes it part of the university.
pub open spec fn departments_block(u: nat, n: nat) -> Seq<Seq<char>>
    decreases n,
{
    if n == 0 {
        Seq::empty()
    } else {
        let d = (n - 1) as nat;
        departments_block(u, d) + department_lines(standard_department(u, d)) + seq![
            stmt(iri(department_uri(u, d)), ub("subOrganizationOf"@), iri(university_uri(u))),
        ]
    }
}

/// Every line about a university: its type and name, then its departments.
pub open spec fn university_lines(u: UniversityView) -> Seq<Seq<char>> {
    seq![
        stmt(iri(university_uri(u.id)), rdf_type(), ub("University"@)),
        stmt(iri(university_uri(u.id)), ub("name"@), lit("University"@ + decimal(u.id))),
    ] + departments_block(u.id, u.departments)
}

/// A university.
pub struct University {
    id: usize,
    num_departments: usize,
}

impl View for University {
    type V = UniversityView;

    closed spec fn view(&self) -> UniversityView {
        UniversityView { id: self.id as nat, departments: self.num_departments as nat }
    }
}

impl University {
    /// University `id`, with fifteen departments.
    pub fn new(id: usize) -> (r: University)
        ensures
            r@ == (UniversityView { id: id as nat, departments: 15 }),
    {
        University { id, num_departments: 15 }
    }

    fn uri_chars(&self) -> (r: Vec<char>)
        ensures
            r@ == university_uri(self@.id),
    {
        let mut out: Vec<char> = Vec::new();
        push_str(&mut out, "http://www.University");
        push_decimal(&mut out, self.id as u64);
        push_str(&mut out, ".edu");
        assert(out@ =~= university_uri(self@.id));
        out
    }

    /// The university's IRI.
    pub fn uri(&self) -> (r: String)
        ensures
            r@ == university_uri(self@.id),
    {
        string_of(self.uri_chars().as_slice())
    }

    /// Every line about the university, in order.
    pub fn generate_rdf(&self) -> (r: Vec<String>)
        ensures
            string_views(r@) == university_lines(self@),
    {
        let ghost u = self@;
        let uri = self.uri_chars();
        let ui = iri_of(uri.as_slice());
        let mut out: Vec<String> = Vec::new();
        let empty: Vec<char> = Vec::new();
        let nm = text_with_number(empty.as_slice(), "University", self.id as u64);
        push_string(&mut out, stmt_line(ui.as_slice(), type_term().as_slice(), ub_term("University").as_slice(), false));
        push_string(&mut out, stmt_line(ui.as_slice(), ub_term("name").as_slice(), lit_of(nm.as_slice()).as_slice(), false));
        assert(nm@ =~= "University"@ + decimal(u.id));
        let ghost head = string_views(out@);
        assert(head =~= head + departments_block(u.id, 0));
        let mut k: usize = 0;
        while k < self.num_departments
            invariant
                u == self@,
                k <= u.departments,
                ui@ == iri(university_uri(u.id)),
                string_views(out@) == head + departments_block(u.id, k as nat),
            decreases u.departments - k,
        {
            let dept = Department::new(self.id, k);
            let lines = dept.generate_rdf();
            let mut j: usize = 0;
            let ghost start = string_views(out@);
            while j < lines.len()
                invariant
                    j <= lines@.len(),
                    string_views(out@) == start + string_views(lines@).take(j as int),
                decreases lines@.len() - j,
            {
                push_string(&mut out, lines[j].clone());
                assert(string_views(lines@).take(j + 1) =~= string_views(lines@).take(j as int).push(lines@[j as int]@));
                assert(string_views(out@) =~= start + string_views(lines@).take(j + 1));
                j += 1;
            }
            assert(string_views(lines@).take(j as int) =~= string_views(lines@));
            let du = iri_of(dept.uri_chars().as_slice());
            push_string(&mut out, stmt_line(du.as_slice(), ub_term("subOrganizationOf").as_slice(), ui.as_slice(), false));
            assert(string_views(out@) =~= head + departments_block(u.id, (k + 1) as nat));
            k += 1;
        }
        out
    }
}

/// The advisor a graduate student's lines name is a faculty member of the
/// same department: one of its first `faculty` members, whose own lines say
/// it works for that department.
pub proof fn lemma_advisor_is_department_faculty(d: DepartmentView, i: nat)
    requires
        d.faculty > 0,
    ensures
        exists|f: Seq<char>, j: nat|
            #![trigger faculty_lines(d, j), iri(f)]
            j < d.faculty && grad_lines(d, i)[4] == stmt(
                iri(department_uri(d.univ, d.dept) + "/GraduateStudent"@ + decimal(i)),
                ub("advisor"@),
                iri(f),
            ) && faculty_lines(d, j).contains(stmt(iri(f), ub("worksFor"@), iri(department_uri(d.univ, d.dept)))),
{
    reveal(grad_lines);
    reveal(faculty_lines);
    let uri = department_uri(d.univ, d.dept);
    let j = (i % d.faculty) as nat;
    let f = uri + "/"@ + faculty_kind(j) + decimal(j);
    assert(faculty_lines(d, j)[2] == stmt(iri(f), ub("worksFor"@), iri(uri)));
    assert(faculty_lines(d, j).contains(stmt(iri(f), ub("worksFor"@), iri(uri))));
    assert(grad_lines(d, i)[4] == stmt(iri(uri + "/GraduateStudent"@ + decimal(i)), ub("advisor"@), iri(f)));
}

/// The courses a graduate student takes are courses of the same department:
/// each is named by a course number below the department's course count.
pub proof fn lemma_grad_courses_exist(d: DepartmentView, i: nat, k: int)
    requires
        d.faculty > 0,
        d.courses > 0,
        5 <= k < 8,
    ensures
        exists|n: nat|
            #![trigger decimal(n)]
            n < d.courses && grad_lines(d, i)[k] == stmt(
                iri(department_uri(d.univ, d.dept) + "/GraduateStudent"@ + decimal(i)),
                ub("takesCourse"@),
                iri(department_uri(d.univ, d.dept) + "/Course"@ + decimal(n)),
            ),
{
    reveal(grad_lines);
    let n = ((i + (k - 5)) % (d.courses as int)) as nat;
    assert(grad_lines(d, i)[k] == stmt(
        iri(department_uri(d.univ, d.dept) + "/GraduateStudent"@ + decimal(i)),
        ub("takesCourse"@),
        iri(department_uri(d.univ, d.dept) + "/Course"@ + decimal(n)),
    ));
}

/// The courses an undergraduate student takes are courses of the same
/// department.
pub proof fn lemma_undergrad_courses_exist(d: DepartmentView, i: nat, k: int)
    requires
        d.courses > 0,
        4 <= k < 6,
    ensures
        exists|n: nat|
            #![trigger decimal(n)]
            n < d.courses && undergrad_lines(d, i)[k] == stmt(
                iri(department_uri(d.univ, d.dept) + "/UndergraduateStudent"@ + decimal(i)),
                ub("takesCourse"@),
                iri(department_uri(d.univ, d.dept) + "/Course"@ + decimal(n)),
            ),
{
    reveal(undergrad_lines);
    let n = ((i + (k - 4)) % (d.courses as int)) as nat;
    assert(undergrad_lines(d, i)[k] == stmt(
        iri(department_uri(d.univ, d.dept) + "/UndergraduateStudent"@ + decimal(i)),
        ub("takesCourse"@),
        iri(department_uri(d.univ, d.dept) + "/Course"@ + decimal(n)),
    ));
}

/// The courses a faculty member teaches are courses of the same department.
pub proof fn lemma_taught_courses_exist(d: DepartmentView, i: nat, k: int)
    requires
        d.courses > 0,
        5 <= k < 7,
    ensures
        exists|n: nat|
            #![trigger decimal(n)]
            n < d.courses && faculty_lines(d, i)[k] == stmt(
                iri(department_uri(d.univ, d.dept) + "/"@ + faculty_kind(i) + decimal(i)),
                ub("teacherOf"@),
                iri(department_uri(d.univ, d.dept) + "/Course"@ + decimal(n)),
            ),
{
    reveal(faculty_lines);
    let n = ((i * 2 + (k - 5)) % (d.courses as int)) as nat;
    assert(faculty_lines(d, i)[k] == stmt(
        iri(department_uri(d.univ, d.dept) + "/"@ + faculty_kind(i) + decimal(i)),
        ub("teacherOf"@),
        iri(department_uri(d.univ, d.dept) + "/Course"@ + decimal(n)),
    ));
}

} // verus!
