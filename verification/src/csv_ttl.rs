//! Turning rows of a CSV table into Turtle: prefixes per vocabulary, CSV line
//! splitting, IRI-safe names, literal escaping, and the statements for a row.
use vstd::prelude::*;
use crate::lexical::{trim, trim_chars};
use crate::node::opt_text;
use crate::string_sets::{push_string, string_views, StringKeyMap};
use crate::text::{chars_of, decimal, digits_value, all_digits, parse_u64, parse_u64_spec, push_decimal, push_str, string_of};

verus! {

/// The vocabulary a table is converted into.
#[derive(Debug, Clone, Copy, PartialEq, Eq, Structural)]
pub enum SchemaType {
    /// schema.org orders, products and customers.
    Order,
    /// An insurance vocabulary.
    Insurance,
    /// A supply-chain vocabulary.
    SupplyChain,
}

/// The base IRI of a vocabulary's data.
pub open spec fn base_uri_of(t: SchemaType) -> Seq<char> {
    match t {
        SchemaType::Order => "http://example.org/data/"@,
        SchemaType::Insurance => "http://example.org/insurance/"@,
        SchemaType::SupplyChain => "http://example.org/supplychain/"@,
    }
}

/// Whether a character has a Unicode alphabetic or numeric property
/// (`char::is_alphanumeric`).
pub uninterp spec fn alphanumeric(c: char) -> bool;

/// `char::is_alphanumeric`: whether `c` is alphabetic or numeric in Unicode.
/// The ASCII letters and digits are alphanumeric (they are `Alphabetic` and
/// `Nd` in Unicode, as the method's documentation shows).
#[verifier::external_body]
fn is_alnum(c: char) -> (r: bool)
    ensures
        r == alphanumeric(c),
        ascii_alnum(c) ==> r,
{
    c.is_alphanumeric()
}

/// Whether a character is replaced in names outright: space and the IRI
/// delimiters `/ \ ? # [ ] @ ! $ & ' ( ) * + , ; =`.
pub open spec fn is_delimiter(c: char) -> bool {
    c == ' ' || c == '/' || c == '\\' || c == '?' || c == '#' || c == '[' || c == ']' || c == '@' || c == '!'
        || c == '$' || c == '&' || c == '\'' || c == '(' || c == ')' || c == '*' || c == '+' || c == ','
        || c == ';' || c == '='
}

/// A character of a name as it appears in an IRI: delimiters become `_`;
/// alphanumerics, `_`, `-` and `.` stay; anything else becomes `_`.
pub open spec fn safe_char(c: char, alnum: bool) -> char {
    if is_delimiter(c) {
        '_'
    } else if alnum || c == '_' || c == '-' || c == '.' {
        c
    } else {
        '_'
    }
}

/// An ASCII letter or digit.
pub open spec fn ascii_alnum(c: char) -> bool {
    'a' <= c <= 'z' || 'A' <= c <= 'Z' || '0' <= c <= '9'
}

/// A name made safe for an IRI, character by character (the ASCII letters
/// and digits are alphanumeric, as are the other Unicode letters and digits).
pub open spec fn sanitized(s: Seq<char>) -> Seq<char> {
    s.map_values(|c: char| safe_char(c, ascii_alnum(c) || alphanumeric(c)))
}

/// A character of a name as it appears in an IRI, given whether it is
/// alphanumeric.
pub fn sanitize_char(c: char, alnum: bool) -> (r: char)
    ensures
        r == safe_char(c, alnum),
{
    if c == ' ' || c == '/' || c == '\\' || c == '?' || c == '#' || c == '[' || c == ']' || c == '@' || c == '!'
        || c == '$' || c == '&' || c == '\'' || c == '(' || c == ')' || c == '*' || c == '+' || c == ','
        || c == ';' || c == '=' {
        '_'
    } else if alnum || c == '_' || c == '-' || c == '.' {
        c
    } else {
        '_'
    }
}

/// How a character is written inside a quoted literal: backslash, quote,
/// newline, carriage return and tab are escaped.
pub open spec fn escaped_char(c: char) -> Seq<char> {
    if c == '\\' {
        seq!['\\', '\\']
    } else if c == '"' {
        seq!['\\', '"']
    } else if c == '\n' {
        seq!['\\', 'n']
    } else if c == '\r' {
        seq!['\\', 'r']
    } else if c == '\t' {
        seq!['\\', 't']
    } else {
        seq![c]
    }
}

/// A text escaped for a quoted literal.
pub open spec fn escaped(s: Seq<char>) -> Seq<char>
    decreases s.len(),
{
    if s.len() == 0 {
        Seq::empty()
    } else {
        escaped(s.drop_last()) + escaped_char(s.last())
    }
}

/// The fields of a CSV line scanned from position `i` on, in quotes or not,
/// with the field so far `cur` and the fields before it `acc`: a comma outside
/// quotes ends a field, a quote toggles quoting, a doubled quote inside quotes
/// is one quote; every field is trimmed.
pub open spec fn csv_scan(s: Seq<char>, i: int, quoted: bool, cur: Seq<char>, acc: Seq<Seq<char>>) -> Seq<
    Seq<char>,
>
    decreases s.len() - i,
{
    if i < 0 || i >= s.len() {
        acc.push(trim(cur))
    } else if s[i] == '"' {
        if quoted && i + 1 < s.len() && s[i + 1] == '"' {
            csv_scan(s, i + 2, quoted, cur.push('"'), acc)
        } else {
            csv_scan(s, i + 1, !quoted, cur, acc)
        }
    } else if s[i] == ',' && !quoted {
        csv_scan(s, i + 1, quoted, Seq::empty(), acc.push(trim(cur)))
    } else {
        csv_scan(s, i + 1, quoted, cur.push(s[i]), acc)
    }
}

/// The fields of a CSV line.
pub open spec fn csv_fields(s: Seq<char>) -> Seq<Seq<char>> {
    csv_scan(s, 0, false, Seq::empty(), Seq::empty())
}

/// The prefix block of a vocabulary.
pub open spec fn prefixes_of(t: SchemaType) -> Seq<char> {
    match t {
        SchemaType::Order => ORDER_PREFIXES@,
        SchemaType::Insurance => INSURANCE_PREFIXES@,
        SchemaType::SupplyChain => SUPPLY_CHAIN_PREFIXES@,
    }
}

/// Prefixes of the order vocabulary.
pub const ORDER_PREFIXES: &'static str = "@prefix rdf: <http://www.w3.org/1999/02/22-rdf-syntax-ns#> .
@prefix rdfs: <http://www.w3.org/2000/01/rdf-schema#> .
@prefix xsd: <http://www.w3.org/2001/XMLSchema#> .
@prefix schema: <https://schema.org/> .
@prefix : <http://example.org/data/> .

";

/// Prefixes of the insurance vocabulary.
pub const INSURANCE_PREFIXES: &'static str = "@prefix rdf: <http://www.w3.org/1999/02/22-rdf-syntax-ns#> .
@prefix rdfs: <http://www.w3.org/2000/01/rdf-schema#> .
@prefix xsd: <http://www.w3.org/2001/XMLSchema#> .
@prefix schema: <https://schema.org/> .
@prefix ins: <http://example.org/insurance/> .
@prefix : <http://example.org/insurance/> .

";

/// Prefixes of the supply-chain vocabulary.
pub const SUPPLY_CHAIN_PREFIXES: &'static str = "@prefix rdf: <http://www.w3.org/1999/02/22-rdf-syntax-ns#> .
@prefix rdfs: <http://www.w3.org/2000/01/rdf-schema#> .
@prefix xsd: <http://www.w3.org/2001/XMLSchema#> .
@prefix schema: <https://schema.org/> .
@prefix sc: <http://example.org/supplychain/> .
@prefix : <http://example.org/supplychain/> .

";

/// What `str::parse::<i32>` gives: an optional sign, then one or more ASCII
/// digits whose value fits in an `i32`.
pub open spec fn parse_i32_spec(s: Seq<char>) -> Option<i32> {
    let neg = s.len() > 0 && s[0] == '-';
    let body = if s.len() > 0 && (s[0] == '-' || s[0] == '+') {
        s.drop_first()
    } else {
        s
    };
    if body.len() > 0 && all_digits(body) && (if neg {
        digits_value(body) <= 0x8000_0000
    } else {
        digits_value(body) <= 0x7fff_ffff
    }) {
        Some((if neg {
            -(digits_value(body) as int)
        } else {
            digits_value(body) as int
        }) as i32)
    } else {
        None
    }
}

/// The decimal numeral of an integer, with a `-` for a negative one.
pub open spec fn signed_decimal(v: int) -> Seq<char> {
    if v < 0 {
        seq!['-'] + decimal((-v) as nat)
    } else {
        decimal(v as nat)
    }
}

/// Reads an `i32` as `str::parse` does.
pub fn parse_i32(s: &[char]) -> (r: Option<i32>)
    ensures
        r == parse_i32_spec(s@),
{
    let neg = s.len() > 0 && s[0] == '-';
    let signed = s.len() > 0 && (s[0] == '-' || s[0] == '+');
    let body = if signed {
        vstd::slice::slice_subrange(s, 1, s.len())
    } else {
        vstd::slice::slice_subrange(s, 0, s.len())
    };
    let ghost b = if s@.len() > 0 && (s@[0] == '-' || s@[0] == '+') {
        s@.drop_first()
    } else {
        s@
    };
    assert(body@ =~= b);
    if body.len() == 0 || body[0] == '+' {
        proof {
            if body@.len() > 0 {
                assert(!crate::text::is_digit(body@[0]));
            }
        }
        return None;
    }
    assert(crate::text::unsigned_body(body@) == body@);
    match parse_u64(body) {
        Some(v) => {
            if neg {
                if v <= 0x8000_0000 {
                    let x: i64 = 0 - (v as i64);
                    Some(x as i32)
                } else {
                    None
                }
            } else {
                if v <= 0x7fff_ffff {
                    Some(v as i32)
                } else {
                    None
                }
            }
        },
        None => {
            proof {
                if body@.len() > 0 && all_digits(body@) {
                    assert(digits_value(body@) > u64::MAX);
                }
            }
            None
        },
    }
}

fn push_signed(out: &mut Vec<char>, v: i32)
    ensures
        final(out)@ == old(out)@ + signed_decimal(v as int),
{
    if v < 0 {
        out.push('-');
        let m: i64 = 0 - (v as i64);
        push_decimal(out, m as u64);
        assert(out@ =~= old(out)@ + signed_decimal(v as int));
    } else {
        push_decimal(out, v as u64);
    }
}

/// A statement about `subject` with a quoted literal:
/// `:subject  schema:prop  "value"suffix .`.
pub open spec fn lit_line(subject: Seq<char>, prop: Seq<char>, value: Seq<char>, suffix: Seq<char>) -> Seq<char> {
    ":"@ + subject + "  schema:"@ + prop + "  \""@ + value + "\""@ + suffix + " ."@
}

/// A type statement: `:subject  rdf:type  class .`.
pub open spec fn type_line(subject: Seq<char>, class: Seq<char>) -> Seq<char> {
    ":"@ + subject + "  rdf:type  "@ + class + " ."@
}

/// A link between two resources: `:subject  schema:prop  :object .`.
pub open spec fn link_line(subject: Seq<char>, prop: Seq<char>, object: Seq<char>) -> Seq<char> {
    ":"@ + subject + "  schema:"@ + prop + "  :"@ + object + " ."@
}

/// The literal statement for column `col` of a row, when the row has it and
/// (where `nonempty` asks) its value is not empty.
pub open spec fn column_line(
    row: Map<Seq<char>, Seq<char>>,
    col: Seq<char>,
    nonempty: bool,
    subject: Seq<char>,
    prop: Seq<char>,
    suffix: Seq<char>,
) -> Seq<Seq<char>> {
    if row.contains_key(col) && (!nonempty || row[col].len() > 0) {
        seq![lit_line(subject, prop, escaped(row[col]), suffix)]
    } else {
        Seq::empty()
    }
}

/// The statements about a row's customer, when it has a customer id.
pub open spec fn customer_lines(row: Map<Seq<char>, Seq<char>>, oid: Seq<char>) -> Seq<Seq<char>> {
    if row.contains_key("Customer Id"@) {
        let c = "Customer_"@ + sanitized(row["Customer Id"@]);
        seq![link_line(oid, "customer"@, c), type_line(c, "schema:Person"@)] + column_line(
            row,
            "Customer Fname"@,
            true,
            c,
            "givenName"@,
            ""@,
        ) + column_line(row, "Customer Lname"@, true, c, "familyName"@, ""@) + column_line(
            row,
            "Customer City"@,
            true,
            c,
            "addressLocality"@,
            ""@,
        ) + column_line(row, "Customer Country"@, true, c, "addressCountry"@, ""@) + column_line(
            row,
            "Customer Segment"@,
            true,
            c,
            "jobTitle"@,
            ""@,
        )
    } else {
        Seq::empty()
    }
}

/// The statements about a row's product, when it has a product name; the
/// price statement carries the price's decimal text, when there is one.
pub open spec fn product_lines(row: Map<Seq<char>, Seq<char>>, oid: Seq<char>, price: Option<Seq<char>>) -> Seq<
    Seq<char>,
> {
    if row.contains_key("Product Name"@) {
        let name = row["Product Name"@];
        let p = "Product_"@ + sanitized(name);
        seq![
            link_line(oid, "orderedItem"@, p),
            type_line(p, "schema:Product"@),
            lit_line(p, "name"@, escaped(name), ""@),
        ] + column_line(row, "Category Name"@, true, p, "category"@, ""@) + match price {
            Some(t) => seq![lit_line(p, "price"@, t, "^^xsd:decimal"@)],
            None => Seq::empty(),
        }
    } else {
        Seq::empty()
    }
}

/// The statements for one row of an order table, numbered `id`: the order,
/// its number, date and status, its customer, its product, its total (the
/// sales figure's decimal text), and its quantity when that reads as an `i32`.
pub open spec fn order_lines(
    row: Map<Seq<char>, Seq<char>>,
    id: nat,
    price: Option<Seq<char>>,
    sales: Option<Seq<char>>,
) -> Seq<Seq<char>> {
    let oid = "Order_"@ + decimal(id);
    seq![type_line(oid, "schema:Order"@)] + column_line(row, "Order Id"@, false, oid, "orderNumber"@, ""@)
        + column_line(row, "order date (DateOrders)"@, true, oid, "orderDate"@, "^^xsd:date"@) + column_line(
        row,
        "Order Status"@,
        true,
        oid,
        "orderStatus"@,
        ""@,
    ) + customer_lines(row, oid) + product_lines(row, oid, price) + match sales {
        Some(t) => seq![lit_line(oid, "totalPrice"@, t, "^^xsd:decimal"@)],
        None => Seq::empty(),
    } + if row.contains_key("Order Item Quantity"@) && parse_i32_spec(row["Order Item Quantity"@]) is Some {
        seq![
            lit_line(
                oid,
                "orderQuantity"@,
                signed_decimal(parse_i32_spec(row["Order Item Quantity"@])->0 as int),
                "^^xsd:integer"@,
            ),
        ]
    } else {
        Seq::empty()
    }
}

/// The decimal texts of a row's price and sales figures, as `f64` renders
/// them; `None` where the row lacks the column or its value is not a number.
pub struct DecimalFields {
    /// The rendering of the `Product Price` column.
    pub price: Option<String>,
    /// The rendering of the `Sales` column.
    pub sales: Option<String>,
}

/// The statements for one row of a table in vocabulary `t`, numbered `id`.
pub open spec fn row_lines(
    t: SchemaType,
    row: Map<Seq<char>, Seq<char>>,
    id: nat,
    price: Option<Seq<char>>,
    sales: Option<Seq<char>>,
) -> Seq<Seq<char>> {
    match t {
        SchemaType::Order => order_lines(row, id, price, sales),
        SchemaType::Insurance => seq![type_line("Policy_"@ + decimal(id), "ins:InsurancePolicy"@)],
        SchemaType::SupplyChain => seq![type_line("Shipment_"@ + decimal(id), "sc:Shipment"@)],
    }
}

fn append(out: &mut Vec<char>, x: &[char])
    ensures
        final(out)@ == old(out)@ + x@,
{
    let mut i: usize = 0;
    while i < x.len()
        invariant
            i <= x@.len(),
            out@ == old(out)@ + x@.take(i as int),
        decreases x@.len() - i,
    {
        out.push(x[i]);
        i += 1;
        assert(out@ =~= old(out)@ + x@.take(i as int));
    }
    assert(x@.take(i as int) =~= x@);
}

fn lit_line_text(subject: &[char], prop: &str, value: &[char], suffix: &str) -> (r: String)
    ensures
        r@ == lit_line(subject@, prop@, value@, suffix@),
{
    let mut out: Vec<char> = Vec::new();
    push_str(&mut out, ":");
    append(&mut out, subject);
    push_str(&mut out, "  schema:");
    push_str(&mut out, prop);
    push_str(&mut out, "  \"");
    append(&mut out, value);
    push_str(&mut out, "\"");
    push_str(&mut out, suffix);
    push_str(&mut out, " .");
    string_of(out.as_slice())
}

fn type_line_text(subject: &[char], class: &str) -> (r: String)
    ensures
        r@ == type_line(subject@, class@),
{
    let mut out: Vec<char> = Vec::new();
    push_str(&mut out, ":");
    append(&mut out, subject);
    push_str(&mut out, "  rdf:type  ");
    push_str(&mut out, class);
    push_str(&mut out, " .");
    string_of(out.as_slice())
}

fn link_line_text(subject: &[char], prop: &str, object: &[char]) -> (r: String)
    ensures
        r@ == link_line(subject@, prop@, object@),
{
    let mut out: Vec<char> = Vec::new();
    push_str(&mut out, ":");
    append(&mut out, subject);
    push_str(&mut out, "  schema:");
    push_str(&mut out, prop);
    push_str(&mut out, "  :");
    append(&mut out, object);
    push_str(&mut out, " .");
    string_of(out.as_slice())
}

fn named(head: &str, tail: &[char]) -> (r: Vec<char>)
    ensures
        r@ == head@ + tail@,
{
    let mut out: Vec<char> = Vec::new();
    push_str(&mut out, head);
    append(&mut out, tail);
    out
}

/// The first line of a CSV file split at commas, each name trimmed and
/// stripped of surrounding double quotes.
pub open spec fn header_names(header: Seq<char>) -> Seq<Seq<char>> {
    crate::lexical::split_on(header, ',').map_values(|c: Seq<char>| strip_quotes(trim(c)))
}

/// A text without the double quotes at its start and its end.
pub open spec fn strip_quotes(s: Seq<char>) -> Seq<char> {
    drop_leading_quotes(crate::lexical::drop_trailing(s, seq!['"']))
}

/// A text without the double quotes at its start.
pub open spec fn drop_leading_quotes(s: Seq<char>) -> Seq<char>
    decreases s.len(),
{
    if s.len() > 0 && s[0] == '"' {
        drop_leading_quotes(s.drop_first())
    } else {
        s
    }
}

/// A converter of CSV tables into Turtle in one vocabulary, with an optional
/// limit on the rows converted.
pub struct TTLConverter {
    schema_type: SchemaType,
    base_uri: String,
    limit: Option<usize>,
}

impl TTLConverter {
    /// The vocabulary.
    pub closed spec fn schema(&self) -> SchemaType {
        self.schema_type
    }

    /// The base IRI.
    pub closed spec fn base(&self) -> Seq<char> {
        self.base_uri@
    }

    /// The row limit.
    pub closed spec fn row_limit(&self) -> Option<usize> {
        self.limit
    }

    /// A converter into `schema_type`, with the vocabulary's base IRI.
    pub fn new(schema_type: SchemaType, limit: Option<usize>) -> (r: TTLConverter)
        ensures
            r.schema() == schema_type,
            r.base() == base_uri_of(schema_type),
            r.row_limit() == limit,
    {
        let base_uri = match schema_type {
            SchemaType::Order => "http://example.org/data/".to_owned(),
            SchemaType::Insurance => "http://example.org/insurance/".to_owned(),
            SchemaType::SupplyChain => "http://example.org/supplychain/".to_owned(),
        };
        TTLConverter { schema_type, base_uri, limit }
    }

    /// The vocabulary.
    pub fn schema_type(&self) -> (r: SchemaType)
        ensures
            r == self.schema(),
    {
        self.schema_type
    }

    /// The base IRI.
    pub fn base_uri(&self) -> (r: &str)
        ensures
            r@ == self.base(),
    {
        self.base_uri.as_str()
    }

    /// The row limit.
    pub fn limit(&self) -> (r: Option<usize>)
        ensures
            r == self.row_limit(),
    {
        self.limit
    }

    /// The prefix declarations that start the output.
    pub fn generate_prefixes(&self) -> (r: String)
        ensures
            r@ == prefixes_of(self.schema()),
    {
        match self.schema_type {
            SchemaType::Order => ORDER_PREFIXES.to_owned(),
            SchemaType::Insurance => INSURANCE_PREFIXES.to_owned(),
            SchemaType::SupplyChain => SUPPLY_CHAIN_PREFIXES.to_owned(),
        }
    }

    /// A value made safe to use in an IRI.
    pub fn sanitize_uri(&self, value: &str) -> (r: String)
        ensures
            r@ == sanitized(value@),
    {
        let v = chars_of(value);
        let mut out: Vec<char> = Vec::new();
        let mut i: usize = 0;
        while i < v.len()
            invariant
                i <= v@.len(),
                out@ == sanitized(v@.take(i as int)),
            decreases v@.len() - i,
        {
            let c = v[i];
            out.push(sanitize_char(c, is_alnum(c)));
            assert(out@ =~= sanitized(v@.take(i + 1)));
            i += 1;
        }
        assert(v@.take(i as int) =~= v@);
        string_of(out.as_slice())
    }

    /// A value escaped for a quoted literal.
    pub fn escape_literal(&self, value: &str) -> (r: String)
        ensures
            r@ == escaped(value@),
    {
        let v = chars_of(value);
        let mut out: Vec<char> = Vec::new();
        let mut i: usize = 0;
        while i < v.len()
            invariant
                i <= v@.len(),
                out@ == escaped(v@.take(i as int)),
            decreases v@.len() - i,
        {
            let c = v[i];
            if c == '\\' {
                out.push('\\');
                out.push('\\');
            } else if c == '"' {
                out.push('\\');
                out.push('"');
            } else if c == '\n' {
                out.push('\\');
                out.push('n');
            } else if c == '\r' {
                out.push('\\');
                out.push('r');
            } else if c == '\t' {
                out.push('\\');
                out.push('t');
            } else {
                out.push(c);
            }
            assert(v@.take(i + 1).drop_last() =~= v@.take(i as int));
            assert(out@ =~= escaped(v@.take(i + 1)));
            i += 1;
        }
        assert(v@.take(i as int) =~= v@);
        string_of(out.as_slice())
    }

    /// The fields of a CSV line: split at commas outside double quotes, a
    /// doubled quote inside quotes standing for one quote, each field trimmed.
    pub fn parse_csv_line(&self, line: &str) -> (r: Vec<String>)
        ensures
            string_views(r@) == csv_fields(line@),
    {
        let s = chars_of(line);
        let n = s.len();
        let mut values: Vec<String> = Vec::new();
        let mut current: Vec<char> = Vec::new();
        let mut in_quotes = false;
        let mut i: usize = 0;
        assert(string_views(values@) =~= Seq::<Seq<char>>::empty());
        while i < n
            invariant
                n == s@.len(),
                i <= n,
                csv_scan(s@, i as int, in_quotes, current@, string_views(values@)) == csv_fields(line@),
                s@ == line@,
            decreases n - i,
        {
            let c = s[i];
            if c == '"' {
                if in_quotes && i + 1 < n && s[i + 1] == '"' {
                    current.push('"');
                    i += 2;
                } else {
                    in_quotes = !in_quotes;
                    i += 1;
                }
            } else if c == ',' && !in_quotes {
                let field = trim_chars(current.as_slice());
                push_string(&mut values, string_of(field.as_slice()));
                current = Vec::new();
                assert(current@ =~= Seq::<char>::empty());
                i += 1;
            } else {
                current.push(c);
                i += 1;
            }
        }
        let field = trim_chars(current.as_slice());
        push_string(&mut values, string_of(field.as_slice()));
        values
    }
}

fn column_rdf(
    conv: &TTLConverter,
    out: &mut Vec<String>,
    row: &StringKeyMap<String>,
    col: &str,
    nonempty: bool,
    subject: &[char],
    prop: &str,
    suffix: &str,
)
    ensures
        string_views(final(out)@) == string_views(old(out)@) + column_line(row@, col@, nonempty, subject@, prop@, suffix@),
{
    match row.get(col) {
        Some(v) => {
            let vc = chars_of(v.as_str());
            if !nonempty || vc.len() > 0 {
                let esc = conv.escape_literal(v.as_str());
                let ec = chars_of(esc.as_str());
                push_string(out, lit_line_text(subject, prop, ec.as_slice(), suffix));
                assert(string_views(out@) =~= string_views(old(out)@) + column_line(
                    row@,
                    col@,
                    nonempty,
                    subject@,
                    prop@,
                    suffix@,
                ));
            } else {
                assert(string_views(out@) =~= string_views(old(out)@) + column_line(
                    row@,
                    col@,
                    nonempty,
                    subject@,
                    prop@,
                    suffix@,
                ));
            }
        },
        None => {
            assert(string_views(out@) =~= string_views(old(out)@) + column_line(
                row@,
                col@,
                nonempty,
                subject@,
                prop@,
                suffix@,
            ));
        },
    }
}

impl TTLConverter {
    fn customer_rdf(&self, out: &mut Vec<String>, row: &StringKeyMap<String>, oid: &[char])
        ensures
            string_views(final(out)@) == string_views(old(out)@) + customer_lines(row@, oid@),
    {
        proof {
                    }
        match row.get("Customer Id") {
            Some(cid) => {
                let safe = self.sanitize_uri(cid.as_str());
                let c = named("Customer_", chars_of(safe.as_str()).as_slice());
                let ghost start = string_views(out@);
                push_string(out, link_line_text(oid, "customer", c.as_slice()));
                push_string(out, type_line_text(c.as_slice(), "schema:Person"));
                column_rdf(self, out, row, "Customer Fname", true, c.as_slice(), "givenName", "");
                column_rdf(self, out, row, "Customer Lname", true, c.as_slice(), "familyName", "");
                column_rdf(self, out, row, "Customer City", true, c.as_slice(), "addressLocality", "");
                column_rdf(self, out, row, "Customer Country", true, c.as_slice(), "addressCountry", "");
                column_rdf(self, out, row, "Customer Segment", true, c.as_slice(), "jobTitle", "");
                assert(string_views(out@) =~= start + customer_lines(row@, oid@));
            },
            None => {
                assert(string_views(out@) =~= string_views(old(out)@) + customer_lines(row@, oid@));
            },
        }
    }

    fn product_rdf(&self, out: &mut Vec<String>, row: &StringKeyMap<String>, oid: &[char], price: &Option<String>)
        ensures
            string_views(final(out)@) == string_views(old(out)@) + product_lines(row@, oid@, opt_text(*price)),
    {
        match row.get("Product Name") {
            Some(name) => {
                let safe = self.sanitize_uri(name.as_str());
                let p = named("Product_", chars_of(safe.as_str()).as_slice());
                let esc = self.escape_literal(name.as_str());
                let ghost start = string_views(out@);
                push_string(out, link_line_text(oid, "orderedItem", p.as_slice()));
                push_string(out, type_line_text(p.as_slice(), "schema:Product"));
                push_string(out, lit_line_text(p.as_slice(), "name", chars_of(esc.as_str()).as_slice(), ""));
                column_rdf(self, out, row, "Category Name", true, p.as_slice(), "category", "");
                match price {
                    Some(t) => {
                        push_string(out, lit_line_text(p.as_slice(), "price", chars_of(t.as_str()).as_slice(), "^^xsd:decimal"));
                    },
                    None => {},
                }
                assert(string_views(out@) =~= start + product_lines(row@, oid@, opt_text(*price)));
            },
            None => {
                assert(string_views(out@) =~= string_views(old(out)@) + product_lines(row@, oid@, opt_text(*price)));
            },
        }
    }

    /// The statements for one row of an order table.
    pub fn generate_order_triples(&self, row: &StringKeyMap<String>, row_id: usize, decimals: &DecimalFields) -> (r:
        Vec<String>)
        ensures
            string_views(r@) == order_lines(row@, row_id as nat, opt_text(decimals.price), opt_text(decimals.sales)),
    {
        let mut oid: Vec<char> = Vec::new();
        push_str(&mut oid, "Order_");
        push_decimal(&mut oid, row_id as u64);
        let mut out: Vec<String> = Vec::new();
        push_string(&mut out, type_line_text(oid.as_slice(), "schema:Order"));
        column_rdf(self, &mut out, row, "Order Id", false, oid.as_slice(), "orderNumber", "");
        column_rdf(self, &mut out, row, "order date (DateOrders)", true, oid.as_slice(), "orderDate", "^^xsd:date");
        column_rdf(self, &mut out, row, "Order Status", true, oid.as_slice(), "orderStatus", "");
        self.customer_rdf(&mut out, row, oid.as_slice());
        self.product_rdf(&mut out, row, oid.as_slice(), &decimals.price);
        let ghost mid = string_views(out@);
        match &decimals.sales {
            Some(t) => {
                push_string(&mut out, lit_line_text(oid.as_slice(), "totalPrice", chars_of(t.as_str()).as_slice(), "^^xsd:decimal"));
            },
            None => {},
        }
        let ghost mid2 = string_views(out@);
        match row.get("Order Item Quantity") {
            Some(q) => {
                let qc = chars_of(q.as_str());
                match parse_i32(qc.as_slice()) {
                    Some(v) => {
                        let mut num: Vec<char> = Vec::new();
                        push_signed(&mut num, v);
                        push_string(&mut out, lit_line_text(oid.as_slice(), "orderQuantity", num.as_slice(), "^^xsd:integer"));
                    },
                    None => {},
                }
            },
            None => {},
        }
        assert(oid@ =~= "Order_"@ + decimal(row_id as nat));
        assert(string_views(out@) =~= order_lines(row@, row_id as nat, opt_text(decimals.price), opt_text(decimals.sales)));
        out
    }

    /// The statements for one row of an insurance table: the policy's type.
    pub fn generate_insurance_triples(&self, row: &StringKeyMap<String>, row_id: usize) -> (r: Vec<String>)
        ensures
            string_views(r@) == seq![type_line("Policy_"@ + decimal(row_id as nat), "ins:InsurancePolicy"@)],
    {
        let mut id: Vec<char> = Vec::new();
        push_str(&mut id, "Policy_");
        push_decimal(&mut id, row_id as u64);
        let mut out: Vec<String> = Vec::new();
        push_string(&mut out, type_line_text(id.as_slice(), "ins:InsurancePolicy"));
        assert(string_views(out@) =~= seq![type_line("Policy_"@ + decimal(row_id as nat), "ins:InsurancePolicy"@)]);
        out
    }

    /// The statements for one row of a supply-chain table: the shipment's type.
    pub fn generate_supplychain_triples(&self, row: &StringKeyMap<String>, row_id: usize) -> (r: Vec<String>)
        ensures
            string_views(r@) == seq![type_line("Shipment_"@ + decimal(row_id as nat), "sc:Shipment"@)],
    {
        let mut id: Vec<char> = Vec::new();
        push_str(&mut id, "Shipment_");
        push_decimal(&mut id, row_id as u64);
        let mut out: Vec<String> = Vec::new();
        push_string(&mut out, type_line_text(id.as_slice(), "sc:Shipment"));
        assert(string_views(out@) =~= seq![type_line("Shipment_"@ + decimal(row_id as nat), "sc:Shipment"@)]);
        out
    }

    /// The statements for one row, in the converter's vocabulary.
    pub fn generate_triples(&self, row: &StringKeyMap<String>, row_id: usize, decimals: &DecimalFields) -> (r: Vec<
        String,
    >)
        ensures
            string_views(r@) == row_lines(
                self.schema(),
                row@,
                row_id as nat,
                opt_text(decimals.price),
                opt_text(decimals.sales),
            ),
    {
        match self.schema_type {
            SchemaType::Order => self.generate_order_triples(row, row_id, decimals),
            SchemaType::Insurance => self.generate_insurance_triples(row, row_id),
            SchemaType::SupplyChain => self.generate_supplychain_triples(row, row_id),
        }
    }
}

/// The column names of a header line.
pub fn header_columns(header: &str) -> (r: Vec<String>)
    ensures
        string_views(r@) == header_names(header@),
{
    let h = chars_of(header);
    let pieces = crate::lexical::split_char(h.as_slice(), ',');
    let ghost ps = pieces@.map_values(|v: Vec<char>| v@);
    let quote: [char; 1] = ['"'];
    assert(quote@ =~= seq!['"']);
    let mut out: Vec<String> = Vec::new();
    let mut i: usize = 0;
    assert(string_views(out@) =~= Seq::<Seq<char>>::empty());
    while i < pieces.len()
        invariant
            i <= pieces@.len(),
            ps == pieces@.map_values(|v: Vec<char>| v@),
            ps == crate::lexical::split_on(header@, ','),
            quote@ == seq!['"'],
            string_views(out@) == ps.take(i as int).map_values(|c: Seq<char>| strip_quotes(trim(c))),
        decreases pieces@.len() - i,
    {
        let t = trim_chars(pieces[i].as_slice());
        let u = crate::lexical::trim_end_set(t.as_slice(), quote.as_slice());
        let mut a: usize = 0;
        assert(u@.skip(0) =~= u@);
        while a < u.len() && u[a] == '"'
            invariant
                a <= u@.len(),
                drop_leading_quotes(u@.skip(a as int)) == drop_leading_quotes(u@),
            decreases u@.len() - a,
        {
            assert(u@.skip(a as int).drop_first() =~= u@.skip(a + 1));
            a += 1;
        }
        let v = vstd::slice::slice_subrange(u.as_slice(), a, u.len());
        assert(v@ =~= u@.skip(a as int));
        assert(ps[i as int] == pieces@[i as int]@);
        push_string(&mut out, string_of(v));
        assert(ps.take(i + 1).map_values(|c: Seq<char>| strip_quotes(trim(c))) =~= ps.take(i as int).map_values(
            |c: Seq<char>| strip_quotes(trim(c)),
        ).push(strip_quotes(trim(ps[i as int]))));
        i += 1;
    }
    assert(ps.take(i as int) =~= ps);
    out
}

/// The map from column names to a row's values, pair by pair (a repeated
/// column keeps its last value).
pub open spec fn zip_map(cs: Seq<Seq<char>>, vs: Seq<Seq<char>>) -> Map<Seq<char>, Seq<char>>
    decreases cs.len(),
{
    if cs.len() == 0 || vs.len() == 0 {
        Map::empty()
    } else if cs.len() != vs.len() {
        Map::empty()
    } else {
        zip_map(cs.drop_last(), vs.drop_last()).insert(cs.last(), vs.last())
    }
}

/// The row of values under the column names.
pub fn row_map(columns: &[String], values: &[String]) -> (r: StringKeyMap<String>)
    requires
        columns@.len() == values@.len(),
    ensures
        r@ == zip_map(string_views(columns@), string_views(values@)),
{
    let mut m: StringKeyMap<String> = StringKeyMap::new();
    let mut i: usize = 0;
    while i < columns.len()
        invariant
            i <= columns@.len(),
            columns@.len() == values@.len(),
            m@ == zip_map(string_views(columns@).take(i as int), string_views(values@).take(i as int)),
        decreases columns@.len() - i,
    {
        m.insert(columns[i].clone(), values[i].clone());
        assert(string_views(columns@).take(i + 1).drop_last() =~= string_views(columns@).take(i as int));
        assert(string_views(values@).take(i + 1).drop_last() =~= string_views(values@).take(i as int));
        i += 1;
    }
    assert(string_views(columns@).take(i as int) =~= string_views(columns@));
    assert(string_views(values@).take(i as int) =~= string_views(values@));
    m
}

/// What to do with a line of the table body.
pub enum RowStep {
    /// A blank line: skip it.
    Blank,
    /// The row limit is reached: stop.
    LimitReached,
    /// The line has another number of fields than the header: skip it.
    Mismatch,
    /// A row to convert, with its fields.
    Row(Vec<String>),
}

impl TTLConverter {
    /// What to do with a line of the table body, given how many rows have been
    /// converted and how many columns the header names: skip a blank line,
    /// stop at the row limit, skip a line with another number of fields, or
    /// convert its fields.
    pub fn classify_row(&self, line: &str, row_count: usize, columns: usize) -> (r: RowStep)
        ensures
            trim(line@).len() == 0 ==> r is Blank,
            trim(line@).len() > 0 && (self.row_limit() matches Some(l) && row_count >= l) ==> r is LimitReached,
            trim(line@).len() > 0 && !(self.row_limit() matches Some(l) && row_count >= l) ==> match r {
                RowStep::Mismatch => csv_fields(line@).len() != columns,
                RowStep::Row(v) => csv_fields(line@).len() == columns && string_views(v@) == csv_fields(line@),
                _ => false,
            },
    {
        let t = trim_chars(chars_of(line).as_slice());
        if t.len() == 0 {
            return RowStep::Blank;
        }
        match self.limit {
            Some(l) => {
                if row_count >= l {
                    return RowStep::LimitReached;
                }
            },
            None => {},
        }
        let values = self.parse_csv_line(line);
        if values.len() != columns {
            RowStep::Mismatch
        } else {
            RowStep::Row(values)
        }
    }
}

/// One element of a sequence is an element of any concatenation holding it.
proof fn lemma_concat_has(a: Seq<Seq<char>>, b: Seq<Seq<char>>, x: Seq<char>)
    ensures
        a.contains(x) ==> (a + b).contains(x),
        b.contains(x) ==> (a + b).contains(x),
{
    if a.contains(x) {
        let i = choose|i: int| 0 <= i < a.len() && a[i] == x;
        assert((a + b)[i] == x);
    }
    if b.contains(x) {
        let i = choose|i: int| 0 <= i < b.len() && b[i] == x;
        assert((a + b)[a.len() + i] == x);
    }
}

/// The customer's lines of an order row, and the order's lines holding them.
proof fn lemma_customer_line_in_order(
    row: Map<Seq<char>, Seq<char>>,
    id: nat,
    price: Option<Seq<char>>,
    sales: Option<Seq<char>>,
    x: Seq<char>,
)
    requires
        customer_lines(row, "Order_"@ + decimal(id)).contains(x),
    ensures
        order_lines(row, id, price, sales).contains(x),
{
    let oid = "Order_"@ + decimal(id);
    let a = seq![type_line(oid, "schema:Order"@)] + column_line(row, "Order Id"@, false, oid, "orderNumber"@, ""@)
        + column_line(row, "order date (DateOrders)"@, true, oid, "orderDate"@, "^^xsd:date"@) + column_line(
        row,
        "Order Status"@,
        true,
        oid,
        "orderStatus"@,
        ""@,
    );
    let c = customer_lines(row, oid);
    let rest1 = product_lines(row, oid, price);
    let rest2 = match sales {
        Some(t) => seq![lit_line(oid, "totalPrice"@, t, "^^xsd:decimal"@)],
        None => Seq::empty(),
    };
    let rest3 = if row.contains_key("Order Item Quantity"@) && parse_i32_spec(row["Order Item Quantity"@]) is Some {
        seq![
            lit_line(
                oid,
                "orderQuantity"@,
                signed_decimal(parse_i32_spec(row["Order Item Quantity"@])->0 as int),
                "^^xsd:integer"@,
            ),
        ]
    } else {
        Seq::empty()
    };
    lemma_concat_has(a, c, x);
    lemma_concat_has(a + c, rest1, x);
    lemma_concat_has(a + c + rest1, rest2, x);
    lemma_concat_has(a + c + rest1 + rest2, rest3, x);
}

/// An order row's customer last name is written as the customer's family
/// name (`schema:familyName`), with the customer named from its id.
pub proof fn lemma_last_name_is_family_name(
    row: Map<Seq<char>, Seq<char>>,
    id: nat,
    price: Option<Seq<char>>,
    sales: Option<Seq<char>>,
)
    requires
        row.contains_key("Customer Id"@),
        row.contains_key("Customer Lname"@),
        row["Customer Lname"@].len() > 0,
    ensures
        order_lines(row, id, price, sales).contains(
            lit_line("Customer_"@ + sanitized(row["Customer Id"@]), "familyName"@, escaped(row["Customer Lname"@]), ""@),
        ),
{
    let oid = "Order_"@ + decimal(id);
    let c = "Customer_"@ + sanitized(row["Customer Id"@]);
    let x = lit_line(c, "familyName"@, escaped(row["Customer Lname"@]), ""@);
    let head = seq![link_line(oid, "customer"@, c), type_line(c, "schema:Person"@)] + column_line(
        row,
        "Customer Fname"@,
        true,
        c,
        "givenName"@,
        ""@,
    );
    let mid = column_line(row, "Customer Lname"@, true, c, "familyName"@, ""@);
    assert(mid[0] == x);
    lemma_concat_has(head, mid, x);
    let t1 = column_line(row, "Customer City"@, true, c, "addressLocality"@, ""@);
    let t2 = column_line(row, "Customer Country"@, true, c, "addressCountry"@, ""@);
    let t3 = column_line(row, "Customer Segment"@, true, c, "jobTitle"@, ""@);
    lemma_concat_has(head + mid, t1, x);
    lemma_concat_has(head + mid + t1, t2, x);
    lemma_concat_has(head + mid + t1 + t2, t3, x);
    assert(customer_lines(row, oid) == head + mid + t1 + t2 + t3);
    lemma_customer_line_in_order(row, id, price, sales, x);
}

/// An order row's customer first name is written as the customer's given
/// name (`schema:givenName`), with the customer named from its id.
pub proof fn lemma_first_name_is_given_name(
    row: Map<Seq<char>, Seq<char>>,
    id: nat,
    price: Option<Seq<char>>,
    sales: Option<Seq<char>>,
)
    requires
        row.contains_key("Customer Id"@),
        row.contains_key("Customer Fname"@),
        row["Customer Fname"@].len() > 0,
    ensures
        order_lines(row, id, price, sales).contains(
            lit_line("Customer_"@ + sanitized(row["Customer Id"@]), "givenName"@, escaped(row["Customer Fname"@]), ""@),
        ),
{
    let oid = "Order_"@ + decimal(id);
    let c = "Customer_"@ + sanitized(row["Customer Id"@]);
    let x = lit_line(c, "givenName"@, escaped(row["Customer Fname"@]), ""@);
    let head = seq![link_line(oid, "customer"@, c), type_line(c, "schema:Person"@)];
    let mid = column_line(row, "Customer Fname"@, true, c, "givenName"@, ""@);
    assert(mid[0] == x);
    lemma_concat_has(head, mid, x);
    let t0 = column_line(row, "Customer Lname"@, true, c, "familyName"@, ""@);
    let t1 = column_line(row, "Customer City"@, true, c, "addressLocality"@, ""@);
    let t2 = column_line(row, "Customer Country"@, true, c, "addressCountry"@, ""@);
    let t3 = column_line(row, "Customer Segment"@, true, c, "jobTitle"@, ""@);
    lemma_concat_has(head + mid, t0, x);
    lemma_concat_has(head + mid + t0, t1, x);
    lemma_concat_has(head + mid + t0 + t1, t2, x);
    lemma_concat_has(head + mid + t0 + t1 + t2, t3, x);
    assert(customer_lines(row, oid) == head + mid + t0 + t1 + t2 + t3);
    lemma_customer_line_in_order(row, id, price, sales, x);
}

/// Every column statement of an order row's customer stands among the
/// order's lines.
proof fn lemma_customer_column_in_order(
    row: Map<Seq<char>, Seq<char>>,
    id: nat,
    price: Option<Seq<char>>,
    sales: Option<Seq<char>>,
    k: int,
)
    requires
        row.contains_key("Customer Id"@),
        2 <= k < customer_lines(row, "Order_"@ + decimal(id)).len(),
    ensures
        order_lines(row, id, price, sales).contains(customer_lines(row, "Order_"@ + decimal(id))[k]),
{
    let oid = "Order_"@ + decimal(id);
    let cl = customer_lines(row, oid);
    assert(cl.contains(cl[k]));
    lemma_customer_line_in_order(row, id, price, sales, cl[k]);
}

/// An order row's customer city, country and segment are written as the
/// customer's `schema:addressLocality`, `schema:addressCountry` and
/// `schema:jobTitle`, with the customer named from its id.
pub proof fn lemma_customer_place_and_segment(
    row: Map<Seq<char>, Seq<char>>,
    id: nat,
    price: Option<Seq<char>>,
    sales: Option<Seq<char>>,
)
    requires
        row.contains_key("Customer Id"@),
    ensures
        row.contains_key("Customer City"@) && row["Customer City"@].len() > 0 ==> order_lines(row, id, price, sales).contains(
            lit_line("Customer_"@ + sanitized(row["Customer Id"@]), "addressLocality"@, escaped(row["Customer City"@]), ""@),
        ),
        row.contains_key("Customer Country"@) && row["Customer Country"@].len() > 0 ==> order_lines(
            row,
            id,
            price,
            sales,
        ).contains(
            lit_line("Customer_"@ + sanitized(row["Customer Id"@]), "addressCountry"@, escaped(row["Customer Country"@]), ""@),
        ),
        row.contains_key("Customer Segment"@) && row["Customer Segment"@].len() > 0 ==> order_lines(
            row,
            id,
            price,
            sales,
        ).contains(
            lit_line("Customer_"@ + sanitized(row["Customer Id"@]), "jobTitle"@, escaped(row["Customer Segment"@]), ""@),
        ),
{
    let oid = "Order_"@ + decimal(id);
    let c = "Customer_"@ + sanitized(row["Customer Id"@]);
    let h = seq![link_line(oid, "customer"@, c), type_line(c, "schema:Person"@)];
    let f0 = column_line(row, "Customer Fname"@, true, c, "givenName"@, ""@);
    let f1 = column_line(row, "Customer Lname"@, true, c, "familyName"@, ""@);
    let t1 = column_line(row, "Customer City"@, true, c, "addressLocality"@, ""@);
    let t2 = column_line(row, "Customer Country"@, true, c, "addressCountry"@, ""@);
    let t3 = column_line(row, "Customer Segment"@, true, c, "jobTitle"@, ""@);
    let cl = customer_lines(row, oid);
    assert(cl == h + f0 + f1 + t1 + t2 + t3);
    let base: int = h.len() + f0.len() + f1.len() as int;
    if t1.len() > 0 {
        assert(cl[base] == t1[0]);
        lemma_customer_column_in_order(row, id, price, sales, base);
    }
    if t2.len() > 0 {
        assert(cl[base + t1.len() as int] == t2[0]);
        lemma_customer_column_in_order(row, id, price, sales, base + t1.len() as int);
    }
    if t3.len() > 0 {
        assert(cl[base + t1.len() as int + t2.len() as int] == t3[0]);
        lemma_customer_column_in_order(row, id, price, sales, base + t1.len() as int + t2.len() as int);
    }
}

} // verus!
