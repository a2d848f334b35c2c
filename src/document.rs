use vstd::prelude::*;
use crate::error::Error;
use crate::pattern::{regex_compiles, DEFAULT_PATTERN};
use crate::text::string_of;
use crate::tree::{entry_keys, first_index, lemma_first_index};
use crate::value::{entries_view, json_text, lemma_entries_view, JValue, JsonValue};
use crate::variables::{
    count_nodes, entries_count, node_count, pattern_entry, patterns_are_strings, resolved, without_key,
    Variables, VariablesDeserializer, PATTERN_KEY,
};

verus! {

broadcast use vstd::std_specs::vec::group_vec_axioms, vstd::seq::group_seq_axioms;

pub open spec fn is_upper(c: char) -> bool {
    'A' <= c && c <= 'Z'
}

pub open spec fn lower(c: char) -> char {
    ((c as u32) + 32) as char
}

pub open spec fn has_upper(s: Seq<char>) -> bool {
    exists|i: int| 0 <= i < s.len() && is_upper(#[trigger] s[i])
}

/// `s` in snake case: each ASCII capital becomes its small letter, and each
/// but the first is preceded by `_`.
pub open spec fn snake(s: Seq<char>) -> Seq<char>
    decreases s.len(),
{
    if s.len() == 0 {
        Seq::empty()
    } else {
        let init = snake(s.drop_last());
        let c = s.last();
        if is_upper(c) {
            if has_upper(s.drop_last()) {
                init + seq!['_', lower(c)]
            } else {
                init.push(lower(c))
            }
        } else {
            init.push(c)
        }
    }
}

/// The name in snake case: `PersonData` becomes `person_data`.
pub fn to_snake_case(value: &str) -> (r: String)
    ensures
        r@ == snake(value@),
{
    let chars = crate::text::chars_of(value);
    let mut out: Vec<char> = Vec::new();
    let mut first = true;
    let mut i: usize = 0;
    while i < chars.len()
        invariant
            i <= chars.len(),
            chars@ == value@,
            out@ == snake(chars@.subrange(0, i as int)),
            first == !has_upper(chars@.subrange(0, i as int)),
        decreases chars.len() - i,
    {
        let c = chars[i];
        proof {
            let s = chars@.subrange(0, i + 1);
            assert(s.drop_last() =~= chars@.subrange(0, i as int));
            assert(s.last() == c);
            if has_upper(s.drop_last()) {
                let j = choose|j: int| 0 <= j < s.drop_last().len() && is_upper(#[trigger] s.drop_last()[j]);
                assert(s[j] == s.drop_last()[j]);
            }
            if has_upper(s) && !is_upper(c) {
                let j = choose|j: int| 0 <= j < s.len() && is_upper(#[trigger] s[j]);
                assert(s.drop_last()[j] == s[j]);
            }
            if is_upper(c) {
                assert(is_upper(s[i as int]));
            }
        }
        if 'A' <= c && c <= 'Z' {
            let l = ((c as u8) + 32) as char;
            assert(l == lower(c));
            if first {
                first = false;
            } else {
                out.push('_');
            }
            out.push(l);
        } else {
            out.push(c);
        }
        proof {
            let s = chars@.subrange(0, i + 1);
            assert(out@ =~= snake(s));
        }
        i = i + 1;
    }
    assert(chars@.subrange(0, chars.len() as int) =~= value@);
    string_of(out.as_slice())
}

/// Where a document keeps its variables and its data: the key of the
/// variables, the key of the data, and whether the data is the rest of the
/// document itself rather than the value under its key.
#[derive(Debug, Clone)]
pub struct DocumentOptions {
    pub variables_field_name: String,
    pub data_field_name: String,
    pub flatten_data_field: bool,
}

impl DocumentOptions {
    /// The options for data of the type named `struct_name`: variables under
    /// `variables`, data under the type's name in snake case.
    pub fn for_type(struct_name: &str) -> (r: DocumentOptions)
        ensures
            r.variables_field_name@ == "variables"@,
            r.data_field_name@ == snake(struct_name@),
            !r.flatten_data_field,
    {
        DocumentOptions {
            variables_field_name: String::from_str("variables"),
            data_field_name: to_snake_case(struct_name),
            flatten_data_field: false,
        }
    }
}

/// The value of the first entry named `key`.
pub open spec fn entry_value(es: Seq<(Seq<char>, JValue)>, key: Seq<char>) -> Option<JValue> {
    match first_index(es.map_values(|e: (Seq<char>, JValue)| e.0), key) {
        Some(k) => Some(es[k].1),
        None => None,
    }
}

/// The data of a document whose entries, without the variables, are `rest`.
pub open spec fn payload(rest: Seq<(Seq<char>, JValue)>, flatten: bool, data_key: Seq<char>) -> Option<JValue> {
    if flatten {
        Some(JValue::Object(rest))
    } else {
        entry_value(rest, data_key)
    }
}

/// The variables that a document declares under `key`: none where it has no
/// such entry.
pub open spec fn declared(es: Seq<(Seq<char>, JValue)>, key: Seq<char>) -> Option<JValue> {
    entry_value(es, key)
}

#[verifier::loop_isolation(false)]
fn find_entry(es: &Vec<(String, JsonValue)>, key: &String) -> (r: Option<usize>)
    ensures
        match r {
            Some(i) => i < es@.len() && entry_value(entries_view(es@), key@) == Some(es@[i as int].1.view())
                && first_index(entries_view(es@).map_values(|e: (Seq<char>, JValue)| e.0), key@) == Some(i as int),
            None => entry_value(entries_view(es@), key@) is None,
        },
{
    proof { lemma_entries_view(es@); }
    let ghost names = entries_view(es@).map_values(|e: (Seq<char>, JValue)| e.0);
    let mut k: usize = 0;
    assert(names.subrange(0, names.len() as int) =~= names);
    while k < es.len()
        invariant
            k <= es.len(),
            names.len() == es@.len(),
            forall|j: int| 0 <= j < es@.len() ==> #[trigger] names[j] == es@[j].0@,
            first_index(names, key@) == match first_index(names.subrange(k as int, names.len() as int), key@) {
                Some(x) => Some(x + k),
                None => None,
            },
        decreases es.len() - k,
    {
        let ghost rest = names.subrange(k as int, names.len() as int);
        if es[k].0 == *key {
            assert(rest[0] == key@);
            assert(first_index(rest, key@) == Some(0int));
            assert(entries_view(es@)[k as int] == (es@[k as int].0@, es@[k as int].1.view()));
            return Some(k);
        }
        assert(rest.drop_first() =~= names.subrange(k + 1, names.len() as int));
        k = k + 1;
    }
    None
}

fn without_entries(es: &Vec<(String, JsonValue)>, key: &String) -> (r: Vec<(String, JsonValue)>)
    ensures
        entries_view(r@) == without_key(entries_view(es@), key@),
{
    proof { lemma_entries_view(es@); }
    let ghost ev = entries_view(es@);
    let mut out: Vec<(String, JsonValue)> = Vec::new();
    let mut i: usize = 0;
    proof {
        reveal(Seq::filter);
        assert(without_key(ev.subrange(0, 0), key@) =~= Seq::empty());
    }
    while i < es.len()
        invariant
            i <= es.len(),
            ev == entries_view(es@),
            ev.len() == es@.len(),
            forall|j: int| 0 <= j < es@.len() ==> #[trigger] ev[j] == (es@[j].0@, es@[j].1.view()),
            entries_view(out@) == without_key(ev.subrange(0, i as int), key@),
        decreases es.len() - i,
    {
        let ghost prefix = ev.subrange(0, i + 1);
        proof {
            reveal(Seq::filter);
            assert(prefix.drop_last() =~= ev.subrange(0, i as int));
            assert(prefix.last() == ev[i as int]);
        }
        if es[i].0 != *key {
            let ghost before = out@;
            out.push((es[i].0.clone(), es[i].1.duplicate()));
            proof {
                assert(out@.drop_last() =~= before);
                assert(entries_view(out@) == entries_view(before).push(ev[i as int]));
            }
        }
        i = i + 1;
    }
    assert(ev.subrange(0, es.len() as int) =~= ev);
    out
}

/// Resolves the data of the document `doc`: takes out the variables under
/// `options.variables_field_name` (with their own placeholder pattern, if they
/// carry one), takes the data, and returns its JSON text with every
/// placeholder replaced. A document without variables declares none.
pub fn resolve_document(doc: &JsonValue, options: &DocumentOptions) -> (r: Result<String, Error>)
    ensures
        !(doc.view() is Object) ==> r == Err::<String, Error>(Error::InvalidInputShape),
        doc.view() is Object ==> {
            let es = doc.view()->Object_0;
            let vars = match declared(es, options.variables_field_name@) {
                Some(v) => v,
                None => JValue::Object(Seq::empty()),
            };
            let rest = without_key(es, options.variables_field_name@);
            if !(vars is Object) || !patterns_are_strings(vars->Object_0) {
                r == Err::<String, Error>(Error::InvalidInputShape)
            } else {
                let m = vars->Object_0;
                let p = match pattern_entry(m) {
                    Some(JValue::Str(s)) => s,
                    _ => DEFAULT_PATTERN@,
                };
                if !regex_compiles(p) {
                    r is Err && r->Err_0 is InvalidPattern && r->Err_0->InvalidPattern_0@ == p
                } else if node_count(JValue::Object(without_key(m, PATTERN_KEY@))) >= usize::MAX {
                    r == Err::<String, Error>(Error::InvalidInputShape)
                } else {
                    match payload(rest, options.flatten_data_field, options.data_field_name@) {
                        None => r == Err::<String, Error>(Error::InvalidInputShape),
                        Some(data) => match resolved(JValue::Object(without_key(m, PATTERN_KEY@)), p, json_text(data)) {
                            Ok(t) => r is Ok && r->Ok_0@ == t,
                            Err(path) => r is Err && r->Err_0 is UndefinedVariable
                                && r->Err_0->UndefinedVariable_0@ == path,
                        },
                    }
                }
            }
        },
{
    let es = match doc {
        JsonValue::Object(es) => es,
        _ => {
            return Err(Error::InvalidInputShape);
        },
    };
    proof { lemma_entries_view(es@); }
    let mapping: Vec<(String, JsonValue)> = match find_entry(es, &options.variables_field_name) {
        Some(k) => match &es[k].1 {
            JsonValue::Object(m) => JsonValue::duplicate_entries(m),
            _ => {
                return Err(Error::InvalidInputShape);
            },
        },
        None => Vec::new(),
    };
    let split = match VariablesDeserializer::from_mapping(mapping) {
        Ok(d) => d,
        Err(e) => {
            return Err(e);
        },
    };
    let vars_value = JsonValue::Object(split.variables);
    let fits = count_nodes(&vars_value);
    let variables = match vars_value {
        JsonValue::Object(v) => v,
        _ => Vec::new(),
    };
    let pattern = split.pattern;
    let store = match fits {
        Some(_) => Variables::new(variables, pattern),
        None => {
            let compiled = match &pattern {
                Some(p) => crate::pattern::Pattern::new(p.as_str()),
                None => crate::pattern::default_pattern(),
            };
            match compiled {
                Some(_) => {
                    return Err(Error::InvalidInputShape);
                },
                None => match pattern {
                    Some(p) => {
                        return Err(Error::InvalidPattern(p));
                    },
                    None => {
                        return Err(Error::InvalidPattern(String::from_str(DEFAULT_PATTERN)));
                    },
                },
            }
        },
    };
    let store = match store {
        Ok(s) => s,
        Err(e) => {
            return Err(e);
        },
    };
    let rest = without_entries(es, &options.variables_field_name);
    let data = if options.flatten_data_field {
        JsonValue::Object(rest)
    } else {
        match find_entry(&rest, &options.data_field_name) {
            Some(k) => rest[k].1.duplicate(),
            None => {
                return Err(Error::InvalidInputShape);
            },
        }
    };
    let text = data.to_json_string();
    store.replace(text.as_str())
}

} // verus!
