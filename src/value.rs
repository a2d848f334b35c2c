use vstd::prelude::*;
use vstd::string::StringExecFns;

verus! {

broadcast use vstd::std_specs::vec::group_vec_axioms, vstd::seq::group_seq_axioms;

/// A JSON value. A number is held as its JSON text (`23`, `23.5`, `-1e3`), so
/// that no arithmetic on it is ever needed; an object keeps its entries in order.
#[derive(Debug)]
pub enum JsonValue {
    Null,
    Bool(bool),
    Number(String),
    Str(String),
    Array(Vec<JsonValue>),
    Object(Vec<(String, JsonValue)>),
}

/// The mathematical model of a [`JsonValue`].
pub enum JValue {
    Null,
    Bool(bool),
    Number(Seq<char>),
    Str(Seq<char>),
    Array(Seq<JValue>),
    Object(Seq<(Seq<char>, JValue)>),
}

pub open spec fn items_view(s: Seq<JsonValue>) -> Seq<JValue>
    decreases s,
{
    if s.len() == 0 {
        Seq::empty()
    } else {
        items_view(s.drop_last()).push(s.last().view())
    }
}

pub open spec fn entries_view(s: Seq<(String, JsonValue)>) -> Seq<(Seq<char>, JValue)>
    decreases s,
{
    if s.len() == 0 {
        Seq::empty()
    } else {
        entries_view(s.drop_last()).push((s.last().0@, s.last().1.view()))
    }
}

impl JsonValue {
    pub open spec fn view(&self) -> JValue
        decreases self,
    {
        match self {
            JsonValue::Null => JValue::Null,
            JsonValue::Bool(b) => JValue::Bool(*b),
            JsonValue::Number(t) => JValue::Number(t@),
            JsonValue::Str(s) => JValue::Str(s@),
            JsonValue::Array(items) => JValue::Array(items_view(items@)),
            JsonValue::Object(entries) => JValue::Object(entries_view(entries@)),
        }
    }
}

pub proof fn lemma_items_view(s: Seq<JsonValue>)
    ensures
        items_view(s).len() == s.len(),
        forall|j: int| 0 <= j < s.len() ==> #[trigger] items_view(s)[j] == s[j].view(),
    decreases s.len(),
{
    if s.len() > 0 {
        lemma_items_view(s.drop_last());
    }
}

pub proof fn lemma_entries_view(s: Seq<(String, JsonValue)>)
    ensures
        entries_view(s).len() == s.len(),
        forall|j: int|
            0 <= j < s.len() ==> #[trigger] entries_view(s)[j] == (s[j].0@, s[j].1.view()),
    decreases s.len(),
{
    if s.len() > 0 {
        lemma_entries_view(s.drop_last());
    }
}

/// A hexadecimal digit, in lower case.
pub open spec fn hex_digit(d: int) -> char {
    if d < 10 {
        crate::text::digit_char(d)
    } else if d == 10 { 'a' } else if d == 11 { 'b' } else if d == 12 { 'c' }
    else if d == 13 { 'd' } else if d == 14 { 'e' } else { 'f' }
}

/// How a JSON string literal writes `c`: a quote and a backslash after a
/// backslash; backspace, tab, line feed, form feed and carriage return as
/// `\b \t \n \f \r`; any other character below U+0020 as `\u00` and two
/// hexadecimal digits; every other character as itself.
pub open spec fn escape_char(c: char) -> Seq<char> {
    if c == '"' {
        seq!['\\', '"']
    } else if c == '\\' {
        seq!['\\', '\\']
    } else if c == '\x08' {
        seq!['\\', 'b']
    } else if c == '\t' {
        seq!['\\', 't']
    } else if c == '\n' {
        seq!['\\', 'n']
    } else if c == '\x0C' {
        seq!['\\', 'f']
    } else if c == '\r' {
        seq!['\\', 'r']
    } else if (c as u32) < 0x20 {
        seq!['\\', 'u', '0', '0', hex_digit((c as u32) as int / 16), hex_digit((c as u32) as int % 16)]
    } else {
        seq![c]
    }
}

/// The characters `s`, each escaped as a JSON string literal writes it.
pub open spec fn escaped(s: Seq<char>) -> Seq<char>
    decreases s.len(),
{
    if s.len() == 0 {
        Seq::empty()
    } else {
        escaped(s.drop_last()) + escape_char(s.last())
    }
}

/// The JSON string literal of the characters `s`: in double quotes, escaped.
pub open spec fn json_string_literal(s: Seq<char>) -> Seq<char> {
    seq!['"'] + escaped(s) + seq!['"']
}

/// Relies on serde_json's compact serialization of `Value::String`: its
/// escape table (`ESCAPE` in `ser.rs`) and its quotes at both ends.
#[verifier::external_body]
fn quote_string(s: &str) -> (r: String)
    ensures
        r@ == json_string_literal(s@),
{
    serde_json::Value::String(s.to_string()).to_string()
}

/// The compact JSON text of `v`: no whitespace, entries and elements in order.
pub open spec fn json_text(v: JValue) -> Seq<char>
    decreases v,
{
    match v {
        JValue::Null => seq!['n', 'u', 'l', 'l'],
        JValue::Bool(b) => if b {
            seq!['t', 'r', 'u', 'e']
        } else {
            seq!['f', 'a', 'l', 's', 'e']
        },
        JValue::Number(t) => t,
        JValue::Str(s) => json_string_literal(s),
        JValue::Array(items) => seq!['['] + items_text(items) + seq![']'],
        JValue::Object(entries) => seq!['{'] + entries_text(entries) + seq!['}'],
    }
}

/// The elements `s`, each as JSON text, separated by commas.
pub open spec fn items_text(s: Seq<JValue>) -> Seq<char>
    decreases s,
{
    if s.len() == 0 {
        seq![]
    } else if s.len() == 1 {
        json_text(s[0])
    } else {
        items_text(s.drop_last()) + seq![','] + json_text(s.last())
    }
}

/// The entries `s`, each as `"key":value`, separated by commas.
pub open spec fn entries_text(s: Seq<(Seq<char>, JValue)>) -> Seq<char>
    decreases s,
{
    if s.len() == 0 {
        seq![]
    } else if s.len() == 1 {
        json_string_literal(s[0].0) + seq![':'] + json_text(s[0].1)
    } else {
        entries_text(s.drop_last()) + seq![','] + json_string_literal(s.last().0) + seq![':']
            + json_text(s.last().1)
    }
}

/// The text that an interpolated placeholder becomes: a string without its
/// enclosing quotes, any other value as its JSON text.
pub open spec fn display_text(v: JValue) -> Seq<char> {
    match v {
        JValue::Str(s) => escaped(s),
        _ => json_text(v),
    }
}

impl JsonValue {
    /// A copy of this value.
    #[verifier::loop_isolation(false)]
    pub fn duplicate(&self) -> (r: JsonValue)
        ensures
            r.view() == self.view(),
        decreases self,
    {
        match self {
            JsonValue::Null => JsonValue::Null,
            JsonValue::Bool(b) => JsonValue::Bool(*b),
            JsonValue::Number(t) => JsonValue::Number(t.clone()),
            JsonValue::Str(s) => JsonValue::Str(s.clone()),
            JsonValue::Array(items) => {
                let mut out: Vec<JsonValue> = Vec::new();
                let mut i: usize = 0;
                while i < items.len()
                    invariant
                        0 <= i <= items.len(),
                        items_view(out@) == items_view(items@.subrange(0, i as int)),
                    decreases items.len() - i,
                {
                    proof { assert(decreases_to!(self => items[i as int])); }
                    let c = items[i].duplicate();
                    let ghost before = out@;
                    out.push(c);
                    proof {
                        assert(out@.drop_last() =~= before);
                        assert(items@.subrange(0, i + 1).drop_last() =~= items@.subrange(0, i as int));
                    }
                    i = i + 1;
                }
                assert(items@.subrange(0, items.len() as int) =~= items@);
                JsonValue::Array(out)
            },
            JsonValue::Object(entries) => {
                let mut out: Vec<(String, JsonValue)> = Vec::new();
                let mut i: usize = 0;
                while i < entries.len()
                    invariant
                        0 <= i <= entries.len(),
                        entries_view(out@) == entries_view(entries@.subrange(0, i as int)),
                    decreases entries.len() - i,
                {
                    proof { assert(decreases_to!(self => entries[i as int].1)); }
                    let c = entries[i].1.duplicate();
                    let k = entries[i].0.clone();
                    let ghost before = out@;
                    out.push((k, c));
                    proof {
                        assert(out@.drop_last() =~= before);
                        assert(entries@.subrange(0, i + 1).drop_last() =~= entries@.subrange(0, i as int));
                    }
                    i = i + 1;
                }
                assert(entries@.subrange(0, entries.len() as int) =~= entries@);
                JsonValue::Object(out)
            },
        }
    }

    /// A copy of the entries `es`.
    pub fn duplicate_entries(es: &Vec<(String, JsonValue)>) -> (r: Vec<(String, JsonValue)>)
        ensures
            entries_view(r@) == entries_view(es@),
    {
        let mut out: Vec<(String, JsonValue)> = Vec::new();
        let mut i: usize = 0;
        while i < es.len()
            invariant
                0 <= i <= es.len(),
                entries_view(out@) == entries_view(es@.subrange(0, i as int)),
            decreases es.len() - i,
        {
            let c = es[i].1.duplicate();
            let k = es[i].0.clone();
            let ghost before = out@;
            out.push((k, c));
            proof {
                assert(out@.drop_last() =~= before);
                assert(es@.subrange(0, i + 1).drop_last() =~= es@.subrange(0, i as int));
            }
            i = i + 1;
        }
        assert(es@.subrange(0, es.len() as int) =~= es@);
        out
    }

    /// The compact JSON text of this value.
    #[verifier::loop_isolation(false)]
    pub fn to_json_string(&self) -> (r: String)
        ensures
            r@ == json_text(self.view()),
        decreases self,
    {
        match self {
            JsonValue::Null => {
                proof { reveal_strlit("null"); }
                String::from_str("null")
            },
            JsonValue::Bool(b) => {
                proof { reveal_strlit("true"); reveal_strlit("false"); }
                if *b {
                    String::from_str("true")
                } else {
                    String::from_str("false")
                }
            },
            JsonValue::Number(t) => t.clone(),
            JsonValue::Str(s) => quote_string(s.as_str()),
            JsonValue::Array(items) => {
                proof { reveal_strlit("["); reveal_strlit("]"); reveal_strlit(","); }
                let mut out = String::from_str("[");
                let mut i: usize = 0;
                while i < items.len()
                    invariant
                        0 <= i <= items.len(),
                        out@ == seq!['['] + items_text(items_view(items@.subrange(0, i as int))),
                    decreases items.len() - i,
                {
                    let ghost prev = items_view(items@.subrange(0, i as int));
                    if i > 0 {
                        out.append(",");
                    }
                    proof { assert(decreases_to!(self => items[i as int])); }
                    let t = items[i].to_json_string();
                    out.append(t.as_str());
                    proof {
                        let s = items@.subrange(0, i + 1);
                        assert(s.drop_last() =~= items@.subrange(0, i as int));
                        lemma_items_view(s);
                        let sv = items_view(s);
                        assert(sv.drop_last() == prev);
                        assert(sv.last() == items@[i as int].view());
                        if i == 0 {
                            assert(prev.len() == 0);
                            assert(out@ =~= seq!['['] + items_text(sv));
                        } else {
                            assert(out@ =~= seq!['['] + items_text(sv));
                        }
                    }
                    i = i + 1;
                }
                out.append("]");
                assert(items@.subrange(0, items.len() as int) =~= items@);
                out
            },
            JsonValue::Object(entries) => {
                proof { reveal_strlit("{"); reveal_strlit("}"); reveal_strlit(","); reveal_strlit(":"); }
                let mut out = String::from_str("{");
                let mut i: usize = 0;
                while i < entries.len()
                    invariant
                        0 <= i <= entries.len(),
                        out@ == seq!['{'] + entries_text(entries_view(entries@.subrange(0, i as int))),
                    decreases entries.len() - i,
                {
                    let ghost prev = entries_view(entries@.subrange(0, i as int));
                    if i > 0 {
                        out.append(",");
                    }
                    let k = quote_string(entries[i].0.as_str());
                    out.append(k.as_str());
                    out.append(":");
                    proof { assert(decreases_to!(self => entries[i as int].1)); }
                    let t = entries[i].1.to_json_string();
                    out.append(t.as_str());
                    proof {
                        let s = entries@.subrange(0, i + 1);
                        assert(s.drop_last() =~= entries@.subrange(0, i as int));
                        lemma_entries_view(s);
                        let sv = entries_view(s);
                        assert(sv.drop_last() == prev);
                        assert(sv.last() == (entries@[i as int].0@, entries@[i as int].1.view()));
                        if i == 0 {
                            assert(prev.len() == 0);
                            assert(out@ =~= seq!['{'] + entries_text(sv));
                        } else {
                            assert(out@ =~= seq!['{'] + entries_text(sv));
                        }
                    }
                    i = i + 1;
                }
                out.append("}");
                assert(entries@.subrange(0, entries.len() as int) =~= entries@);
                out
            },
        }
    }

    /// The text that an interpolated placeholder for this value becomes.
    /// A string loses its enclosing quotes; any other value is shown as its
    /// JSON text.
    pub fn to_display_string(&self) -> (r: String)
        ensures
            r@ == display_text(self.view()),
            self.view() is Str ==> json_text(self.view()) == seq!['"'] + r@ + seq!['"'],
            !(self.view() is Str) ==> r@ == json_text(self.view()),
    {
        match self {
            JsonValue::Str(s) => {
                let lit = quote_string(s.as_str());
                let n = lit.as_str().unicode_len();
                let r = lit.as_str().substring_char(1, n - 1).to_string();
                assert(lit@ =~= seq!['"'] + r@ + seq!['"']);
                r
            },
            _ => self.to_json_string(),
        }
    }
}

} // verus!
