//! An owned JSON value, and JSON Pointer lookups into it.
use crate::grammar::{digits_value, is_digit, lemma_digits_value_grows, lemma_digits_value_step};
use crate::map::ObjectMap;
use crate::number::{Number, Repr};
use vstd::prelude::*;
use vstd::string::StringSliceAdditionalSpecFns;
use vstd::utf8::*;

verus! {

/// An owned JSON value.
#[derive(Debug, PartialEq)]
pub enum Value {
    Null,
    Bool(bool),
    Number(Number),
    String(String),
    Array(Vec<Value>),
    Object(ObjectMap<Value>),
}

/// `t` with each `~1` read as `/` and then each `~0` read as `~`, as JSON
/// Pointer tokens are decoded.
pub open spec fn replace_pair(t: Seq<u8>, second: u8, with: u8) -> Seq<u8>
    decreases t.len(),
{
    if t.len() < 2 {
        t
    } else if t[0] == 0x7e && t[1] == second {
        seq![with] + replace_pair(t.skip(2), second, with)
    } else {
        seq![t[0]] + replace_pair(t.skip(1), second, with)
    }
}

/// A pointer token with its escapes decoded.
pub open spec fn decode_token(t: Seq<u8>) -> Seq<u8> {
    replace_pair(replace_pair(t, 0x31, 0x2f), 0x30, 0x7e)
}

/// The array index a pointer token names: decimal digits only, with no sign
/// and no leading zero, within `usize`.
pub open spec fn token_index(t: Seq<u8>) -> Option<usize> {
    if t.len() == 0 || (t.len() > 1 && t[0] == 0x30) {
        None
    } else if exists|k: int| 0 <= k < t.len() && !is_digit(#[trigger] t[k]) {
        None
    } else if digits_value(t, 0, t.len() as int) > usize::MAX {
        None
    } else {
        Some(digits_value(t, 0, t.len() as int) as usize)
    }
}

/// The first `/` at or after `from`.
pub open spec fn next_slash(b: Seq<u8>, from: int) -> int
    decreases b.len() - from,
{
    if from < 0 || from >= b.len() {
        b.len() as int
    } else if b[from] == 0x2f {
        from
    } else {
        next_slash(b, from + 1)
    }
}

/// The raw tokens of `b` from `from` on, split at each `/`.
pub open spec fn tokens_from(b: Seq<u8>, from: int) -> Seq<Seq<u8>>
    decreases b.len() - from,
{
    let end = next_slash(b, from);
    if from < 0 || from > b.len() || end < from {
        Seq::empty()
    } else if end >= b.len() {
        seq![b.subrange(from, b.len() as int)]
    } else {
        seq![b.subrange(from, end)] + tokens_from(b, end + 1)
    }
}

/// One step down a value by a decoded token: the member with that name of
/// an object, or the element at that index of an array.
pub open spec fn step(v: Value, token: Seq<u8>) -> Option<Value> {
    match v {
        Value::Object(m) => if valid_utf8(token) && m@.contains_key(decode_utf8(token)) {
            Some(m@[decode_utf8(token)])
        } else {
            None
        },
        Value::Array(a) => match token_index(token) {
            Some(i) => if i < a@.len() {
                Some(a@[i as int])
            } else {
                None
            },
            None => None,
        },
        _ => None,
    }
}

/// The value reached from `v` by following raw tokens, each decoded.
pub open spec fn resolve(v: Value, tokens: Seq<Seq<u8>>) -> Option<Value>
    decreases tokens.len(),
{
    if tokens.len() == 0 {
        Some(v)
    } else {
        match step(v, decode_token(tokens[0])) {
            Some(child) => resolve(child, tokens.drop_first()),
            None => None,
        }
    }
}

/// The value a JSON Pointer names in `v`: the whole value for the empty
/// pointer, nothing for a pointer that does not start with `/`.
pub open spec fn pointer_target(v: Value, pointer: Seq<u8>) -> Option<Value> {
    if pointer.len() == 0 {
        Some(v)
    } else if pointer[0] != 0x2f {
        None
    } else {
        resolve(v, tokens_from(pointer, 1))
    }
}

proof fn lemma_next_slash(b: Seq<u8>, from: int)
    requires
        0 <= from <= b.len(),
    ensures
        from <= next_slash(b, from) <= b.len(),
        next_slash(b, from) < b.len() ==> b[next_slash(b, from)] == 0x2f,
        forall|k: int| from <= k < next_slash(b, from) ==> b[k] != 0x2f,
    decreases b.len() - from,
{
    if from < b.len() && b[from] != 0x2f {
        lemma_next_slash(b, from + 1);
    }
}

/// `after` is `before` with the child that decoded token `t` names replaced
/// by `child`.
pub open spec fn one_level(before: Value, after: Value, t: Seq<u8>, child: Value) -> bool {
    match (before, after) {
        (Value::Object(m), Value::Object(m2)) => m2@ == m@.insert(decode_utf8(t), child),
        (Value::Array(a), Value::Array(a2)) => match token_index(t) {
            Some(i) => a2@ == a@.update(i as int, child),
            None => false,
        },
        _ => false,
    }
}

/// `after` is `before` with the value that `tokens` lead to replaced by `leaf`.
pub open spec fn replaced(before: Value, after: Value, tokens: Seq<Seq<u8>>, leaf: Value) -> bool
    decreases tokens.len(),
{
    if tokens.len() == 0 {
        after == leaf
    } else {
        let t = decode_token(tokens[0]);
        match (step(before, t), step(after, t)) {
            (Some(c), Some(c2)) => one_level(before, after, t, c2) && replaced(
                c,
                c2,
                tokens.drop_first(),
                leaf,
            ),
            _ => false,
        }
    }
}

/// Following a list of tokens is following its first part, then the rest.
proof fn lemma_resolve_concat(v: Value, a: Seq<Seq<u8>>, b: Seq<Seq<u8>>)
    ensures
        resolve(v, a + b) == match resolve(v, a) {
            Some(w) => resolve(w, b),
            None => None,
        },
    decreases a.len(),
{
    if a.len() == 0 {
        assert(a + b =~= b);
    } else {
        assert((a + b).drop_first() =~= a.drop_first() + b);
        assert((a + b)[0] == a[0]);
        match step(v, decode_token(a[0])) {
            Some(child) => lemma_resolve_concat(child, a.drop_first(), b),
            None => {},
        }
    }
}

/// Decodes the escapes `~<second>` of `t` into `with`.
fn replace_escape(t: &[u8], second: u8, with: u8) -> (out: Vec<u8>)
    ensures
        out@ == replace_pair(t@, second, with),
{
    let mut out: Vec<u8> = Vec::new();
    let mut i: usize = 0;
    assert(t@.skip(0) =~= t@);
    assert(out@ + replace_pair(t@, second, with) =~= replace_pair(t@, second, with));
    while i < t.len()
        invariant
            i <= t@.len(),
            out@ + replace_pair(t@.skip(i as int), second, with) == replace_pair(t@, second, with),
        decreases t@.len() - i,
    {
        let ghost rest = t@.skip(i as int);
        if i + 1 < t.len() && t[i] == 0x7e && t[i + 1] == second {
            assert(rest.skip(2) =~= t@.skip(i + 2));
            out.push(with);
            i = i + 2;
            assert(out@ + replace_pair(t@.skip(i as int), second, with) =~= replace_pair(
                t@,
                second,
                with,
            ));
        } else {
            proof {
                if rest.len() >= 2 {
                    assert(rest.skip(1) =~= t@.skip(i + 1));
                } else {
                    assert(t@.skip(i + 1) =~= Seq::<u8>::empty());
                    assert(replace_pair(rest, second, with) == rest);
                    assert(rest =~= seq![t@[i as int]] + t@.skip(i + 1));
                }
            }
            out.push(t[i]);
            i = i + 1;
            assert(out@ + replace_pair(t@.skip(i as int), second, with) =~= replace_pair(
                t@,
                second,
                with,
            ));
        }
    }
    assert(t@.skip(i as int) =~= Seq::<u8>::empty());
    assert(out@ =~= replace_pair(t@, second, with));
    out
}

/// Decodes a JSON Pointer token: `~1` stands for `/` and `~0` for `~`.
pub fn decode_pointer_token(token: &[u8]) -> (decoded: Vec<u8>)
    ensures
        decoded@ == decode_token(token@),
{
    let once = replace_escape(token, 0x31, 0x2f);
    replace_escape(once.as_slice(), 0x30, 0x7e)
}

/// The array index named by a pointer token, if it names one.
pub fn parse_index(token: &[u8]) -> (index: Option<usize>)
    ensures
        index == token_index(token@),
{
    if token.len() == 0 || (token.len() > 1 && token[0] == 0x30) {
        return None;
    }
    let start: usize = 0;
    let mut value: usize = 0;
    let mut i: usize = start;
    while i < token.len()
        invariant
            start <= i <= token@.len(),
            start == 0,
            token@.len() > 0,
            forall|k: int| start <= k < i ==> is_digit(#[trigger] token@[k]),
            value == digits_value(token@, start as int, i as int),
        decreases token@.len() - i,
    {
        let byte = token[i];
        if byte < 0x30 || byte > 0x39 {
            assert(!is_digit(token@[i as int]));
            return None;
        }
        let digit = (byte - 0x30) as usize;
        proof {
            lemma_digits_value_step(token@, start as int, i as int);
        }
        if value > (usize::MAX - digit) / 10 {
            proof {
                assert(value * 10 + digit > usize::MAX) by (nonlinear_arith)
                    requires
                        value > (usize::MAX - digit) / 10,
                        digit <= 9,
                ;
                if forall|k: int| start <= k < token@.len() ==> is_digit(#[trigger] token@[k]) {
                    lemma_digits_value_grows(
                        token@,
                        start as int,
                        i + 1,
                        token@.len() as int,
                    );
                }
            }
            return None;
        }
        value = value * 10 + digit;
        i = i + 1;
    }
    Some(value)
}


impl Value {
    /// Whether the value is `null`.
    pub fn is_null(&self) -> (r: bool)
        ensures
            r == (*self is Null),
    {
        match self {
            Value::Null => true,
            _ => false,
        }
    }

    /// Whether the value is a boolean.
    pub fn is_boolean(&self) -> (r: bool)
        ensures
            r == (*self is Bool),
    {
        match self {
            Value::Bool(_) => true,
            _ => false,
        }
    }

    /// Whether the value is a number.
    pub fn is_number(&self) -> (r: bool)
        ensures
            r == (*self is Number),
    {
        match self {
            Value::Number(_) => true,
            _ => false,
        }
    }

    /// Whether the value is an integer that fits in `i64`.
    pub fn is_i64(&self) -> (r: bool)
        ensures
            r == (*self matches Value::Number(n) && n.spec_as_i64() is Some),
    {
        self.as_i64().is_some()
    }

    /// Whether the value is a nonnegative integer.
    pub fn is_u64(&self) -> (r: bool)
        ensures
            r == (*self matches Value::Number(n) && n.spec_repr() is U64),
    {
        self.as_u64().is_some()
    }

    /// Whether the value is a number held as a float.
    pub fn is_f64(&self) -> (r: bool)
        ensures
            r == (*self matches Value::Number(n) && n.spec_repr() is F64),
    {
        match self {
            Value::Number(n) => n.is_f64(),
            _ => false,
        }
    }

    /// Whether the value is a string.
    pub fn is_string(&self) -> (r: bool)
        ensures
            r == (*self is String),
    {
        match self {
            Value::String(_) => true,
            _ => false,
        }
    }

    /// Whether the value is an array.
    pub fn is_array(&self) -> (r: bool)
        ensures
            r == (*self is Array),
    {
        match self {
            Value::Array(_) => true,
            _ => false,
        }
    }

    /// Whether the value is an object.
    pub fn is_object(&self) -> (r: bool)
        ensures
            r == (*self is Object),
    {
        match self {
            Value::Object(_) => true,
            _ => false,
        }
    }

    /// The boolean, for a boolean value.
    pub fn as_bool(&self) -> (r: Option<bool>)
        ensures
            r == match *self {
                Value::Bool(b) => Some(b),
                _ => None,
            },
    {
        match self {
            Value::Bool(b) => Some(*b),
            _ => None,
        }
    }

    /// The number as `i64`, for an integer in range.
    pub fn as_i64(&self) -> (r: Option<i64>)
        ensures
            r == match *self {
                Value::Number(n) => n.spec_as_i64(),
                _ => None,
            },
    {
        match self {
            Value::Number(n) => n.as_i64(),
            _ => None,
        }
    }

    /// The number as `u64`, for a nonnegative integer.
    pub fn as_u64(&self) -> (r: Option<u64>)
        ensures
            r == match *self {
                Value::Number(n) => match n.spec_repr() {
                    Repr::U64(v) => Some(v),
                    _ => None,
                },
                _ => None,
            },
    {
        match self {
            Value::Number(n) => match n.repr() {
                Repr::U64(v) => Some(v),
                _ => None,
            },
            _ => None,
        }
    }

    /// The number, for a number value.
    pub fn as_number(&self) -> (r: Option<&Number>)
        ensures
            match *self {
                Value::Number(n) => r == Some(&n),
                _ => r is None,
            },
    {
        match self {
            Value::Number(n) => Some(n),
            _ => None,
        }
    }

    /// The text, for a string value.
    pub fn as_str(&self) -> (r: Option<&str>)
        ensures
            match *self {
                Value::String(s) => r matches Some(t) && t@ == s@,
                _ => r is None,
            },
    {
        match self {
            Value::String(s) => Some(s.as_str()),
            _ => None,
        }
    }

    /// The elements, for an array value.
    pub fn as_array(&self) -> (r: Option<&Vec<Value>>)
        ensures
            match *self {
                Value::Array(a) => r == Some(&a),
                _ => r is None,
            },
    {
        match self {
            Value::Array(a) => Some(a),
            _ => None,
        }
    }

    /// The members, for an object value.
    pub fn as_object(&self) -> (r: Option<&ObjectMap<Value>>)
        ensures
            match *self {
                Value::Object(m) => r == Some(&m),
                _ => r is None,
            },
    {
        match self {
            Value::Object(m) => Some(m),
            _ => None,
        }
    }

    /// The elements, to change in place, for an array value.
    pub fn as_array_mut(&mut self) -> (r: Option<&mut Vec<Value>>)
        ensures
            match *old(self) {
                Value::Array(a) => r matches Some(x) && *x == a && *final(self) == Value::Array(
                    *final(x),
                ),
                _ => r is None && *final(self) == *old(self),
            },
    {
        match self {
            Value::Array(a) => Some(a),
            _ => None,
        }
    }

    /// The members, to change in place, for an object value.
    pub fn as_object_mut(&mut self) -> (r: Option<&mut ObjectMap<Value>>)
        ensures
            match *old(self) {
                Value::Object(m) => r matches Some(x) && *x == m && *final(self) == Value::Object(
                    *final(x),
                ),
                _ => r is None && *final(self) == *old(self),
            },
    {
        match self {
            Value::Object(m) => Some(m),
            _ => None,
        }
    }

    /// The member named `key`, for an object value.
    pub fn get(&self, key: &str) -> (r: Option<&Value>)
        ensures
            match *self {
                Value::Object(m) => match r {
                    Some(v) => m@.contains_key(key@) && *v == m@[key@],
                    None => !m@.contains_key(key@),
                },
                _ => r is None,
            },
    {
        match self {
            Value::Object(m) => m.get(key),
            _ => None,
        }
    }

    /// The element at `index`, for an array value.
    pub fn get_index(&self, index: usize) -> (r: Option<&Value>)
        ensures
            match *self {
                Value::Array(a) => if index < a@.len() {
                    r == Some(&a@[index as int])
                } else {
                    r is None
                },
                _ => r is None,
            },
    {
        match self {
            Value::Array(a) => if index < a.len() {
                Some(&a[index])
            } else {
                None
            },
            _ => None,
        }
    }

    /// The member named `key`, to change in place, for an object value.
    pub fn get_mut(&mut self, key: &str) -> (r: Option<&mut Value>)
        ensures
            match *old(self) {
                Value::Object(m) => match r {
                    Some(v) => {
                        &&& m@.contains_key(key@)
                        &&& *v == m@[key@]
                        &&& *final(self) matches Value::Object(after) && after@ == m@.insert(
                            key@,
                            *final(v),
                        )
                    },
                    None => !m@.contains_key(key@) && (*final(self) matches Value::Object(after)
                        && after@ == m@),
                },
                _ => r is None && *final(self) == *old(self),
            },
    {
        match self {
            Value::Object(m) => m.get_mut(key),
            _ => None,
        }
    }

    /// The element at `index`, to change in place, for an array value.
    pub fn get_index_mut(&mut self, index: usize) -> (r: Option<&mut Value>)
        ensures
            match *old(self) {
                Value::Array(a) => if index < a@.len() {
                    &&& r matches Some(v)
                    &&& *v == a@[index as int]
                    &&& *final(self) matches Value::Array(after) && after@ == a@.update(
                        index as int,
                        *final(v),
                    )
                } else {
                    r is None && *final(self) == *old(self)
                },
                _ => r is None && *final(self) == *old(self),
            },
    {
        match self {
            Value::Array(a) => if index < a.len() {
                Some(&mut a[index])
            } else {
                None
            },
            _ => None,
        }
    }

    /// Replaces the value with `null` and gives back what it was.
    pub fn take(&mut self) -> (taken: Value)
        ensures
            taken == *old(self),
            *final(self) == Value::Null,
    {
        let mut taken = Value::Null;
        std::mem::swap(&mut taken, self);
        taken
    }

    /// One step down by a decoded pointer token.
    fn step_ref(&self, token: &[u8]) -> (r: Option<&Value>)
        ensures
            match r {
                Some(child) => step(*self, token@) == Some(*child),
                None => step(*self, token@) is None,
            },
    {
        match self {
            Value::Object(m) => m.get_bytes(token),
            Value::Array(a) => match parse_index(token) {
                Some(i) => if i < a.len() {
                    Some(&a[i])
                } else {
                    None
                },
                None => None,
            },
            _ => None,
        }
    }

    /// Resolves an RFC 6901 JSON Pointer: the whole value for the empty
    /// pointer, and nothing for a pointer that does not start with `/` or
    /// names no value.
    pub fn pointer(&self, pointer: &str) -> (r: Option<&Value>)
        ensures
            match r {
                Some(v) => pointer_target(*self, pointer.spec_bytes()) == Some(*v),
                None => pointer_target(*self, pointer.spec_bytes()) is None,
            },
    {
        let p = pointer.as_bytes();
        if p.len() == 0 {
            return Some(self);
        }
        if p[0] != 0x2f {
            return None;
        }
        let mut current: &Value = self;
        let mut from: usize = 1;
        while from <= p.len()
            invariant
                1 <= from <= p@.len(),
                p@ == pointer.spec_bytes(),
                p@[0] == 0x2f,
                resolve(*self, tokens_from(p@, 1)) == resolve(*current, tokens_from(p@, from as int)),
            decreases p@.len() - from,
        {
            let mut end = from;
            while end < p.len() && p[end] != 0x2f
                invariant
                    from <= end <= p@.len(),
                    next_slash(p@, from as int) == next_slash(p@, end as int),
                decreases p@.len() - end,
            {
                end = end + 1;
            }
            proof {
                lemma_next_slash(p@, from as int);
            }
            let ghost before = *current;
            let ghost toks = tokens_from(p@, from as int);
            let raw = &p[from..end];
            proof {
                assert(raw@ == p@.subrange(from as int, end as int));
                if end >= p@.len() {
                    assert(toks == seq![p@.subrange(from as int, p@.len() as int)]);
                    assert(toks.drop_first() =~= Seq::<Seq<u8>>::empty());
                } else {
                    assert(toks == seq![p@.subrange(from as int, end as int)] + tokens_from(
                        p@,
                        end + 1,
                    ));
                    assert(toks.drop_first() =~= tokens_from(p@, end + 1));
                }
                assert(toks[0] == raw@);
            }
            let token = decode_pointer_token(raw);
            match current.step_ref(token.as_slice()) {
                Some(child) => {
                    current = child;
                },
                None => {
                    return None;
                },
            }
            if end >= p.len() {
                proof {
                    assert(resolve(*current, Seq::<Seq<u8>>::empty()) == Some(*current));
                    assert(resolve(before, toks) == resolve(*current, toks.drop_first()));
                }
                return Some(current);
            }
            from = end + 1;
        }
        Some(current)
    }
}

impl Value {
    /// One step down by a decoded pointer token, to a child that can be
    /// changed in place.
    fn step_mut<'a>(&'a mut self, token: &[u8]) -> (r: Option<&'a mut Value>)
        ensures
            match r {
                Some(c) => {
                    &&& step(*old(self), token@) == Some(*c)
                    &&& one_level(*old(self), *final(self), token@, *final(c))
                    &&& step(*final(self), token@) == Some(*final(c))
                },
                None => step(*old(self), token@) is None && *final(self) == *old(self),
            },
    {
        match self {
            Value::Object(m) => m.get_mut_bytes(token),
            Value::Array(a) => match parse_index(token) {
                Some(i) => if i < a.len() {
                    Some(&mut a[i])
                } else {
                    None
                },
                None => None,
            },
            _ => None,
        }
    }

    fn pointer_mut_from<'a>(&'a mut self, p: &[u8], from: usize) -> (r: Option<&'a mut Value>)
        requires
            1 <= from <= p@.len(),
            resolve(*old(self), tokens_from(p@, from as int)) is Some,
        ensures
            r matches Some(x) && resolve(*old(self), tokens_from(p@, from as int)) == Some(*x)
                && replaced(*old(self), *final(self), tokens_from(p@, from as int), *final(x)),
        decreases p@.len() - from,
    {
        let mut end = from;
        while end < p.len() && p[end] != 0x2f
            invariant
                from <= end <= p@.len(),
                next_slash(p@, from as int) == next_slash(p@, end as int),
            decreases p@.len() - end,
        {
            end = end + 1;
        }
        proof {
            lemma_next_slash(p@, from as int);
        }
        let ghost toks = tokens_from(p@, from as int);
        let raw = &p[from..end];
        proof {
            assert(raw@ == p@.subrange(from as int, end as int));
            if end >= p@.len() {
                assert(toks == seq![p@.subrange(from as int, p@.len() as int)]);
                assert(toks.drop_first() =~= Seq::<Seq<u8>>::empty());
            } else {
                assert(toks == seq![p@.subrange(from as int, end as int)] + tokens_from(
                    p@,
                    end + 1,
                ));
                assert(toks.drop_first() =~= tokens_from(p@, end + 1));
            }
            assert(toks[0] == raw@);
        }
        let token = decode_pointer_token(raw);
        match self.step_mut(token.as_slice()) {
            None => None,
            Some(child) => {
                if end >= p.len() {
                    proof {
                        assert(resolve(*child, Seq::<Seq<u8>>::empty()) == Some(*child));
                        assert(replaced(
                            *child,
                            *final(child),
                            Seq::<Seq<u8>>::empty(),
                            *final(child),
                        ));
                    }
                    proof {
                        assert(decode_token(toks[0]) == token@);
                    }
                    Some(child)
                } else {
                    let ghost start_child = *child;
                    let r = child.pointer_mut_from(p, end + 1);
                    proof {
                        assert(decode_token(toks[0]) == token@);
                        assert(resolve(*old(self), toks) == resolve(start_child, toks.drop_first()));
                    }
                    r
                }
            },
        }
    }

    /// Resolves an RFC 6901 JSON Pointer to a value that can be changed in
    /// place; the change lands at the place the pointer names.
    pub fn pointer_mut(&mut self, pointer: &str) -> (r: Option<&mut Value>)
        ensures
            match r {
                Some(x) => {
                    &&& pointer_target(*old(self), pointer.spec_bytes()) == Some(*x)
                    &&& if pointer.spec_bytes().len() == 0 {
                        *final(self) == *final(x)
                    } else {
                        replaced(
                            *old(self),
                            *final(self),
                            tokens_from(pointer.spec_bytes(), 1),
                            *final(x),
                        )
                    }
                },
                None => pointer_target(*old(self), pointer.spec_bytes()) is None && *final(self)
                    == *old(self),
            },
    {
        let p = pointer.as_bytes();
        if p.len() == 0 {
            return Some(self);
        }
        if p[0] != 0x2f {
            return None;
        }
        if self.pointer(pointer).is_none() {
            return None;
        }
        self.pointer_mut_from(p, 1)
    }
}

impl Default for Value {
    fn default() -> (value: Self)
        ensures
            value == Value::Null,
    {
        Value::Null
    }
}


impl From<bool> for Value {
    fn from(value: bool) -> (v: Self) {
        Value::Bool(value)
    }
}

impl vstd::std_specs::convert::FromSpecImpl<bool> for Value {
    open spec fn obeys_from_spec() -> bool {
        true
    }

    open spec fn from_spec(value: bool) -> Self {
        Value::Bool(value)
    }
}

impl From<i64> for Value {
    fn from(value: i64) -> (v: Self) {
        Value::Number(Number::from_i64(value))
    }
}

impl vstd::std_specs::convert::FromSpecImpl<i64> for Value {
    open spec fn obeys_from_spec() -> bool {
        true
    }

    open spec fn from_spec(value: i64) -> Self {
        Value::Number(Number::spec_from_i64(value))
    }
}

impl From<u64> for Value {
    fn from(value: u64) -> (v: Self) {
        Value::Number(Number::from_u64(value))
    }
}

impl vstd::std_specs::convert::FromSpecImpl<u64> for Value {
    open spec fn obeys_from_spec() -> bool {
        true
    }

    open spec fn from_spec(value: u64) -> Self {
        Value::Number(Number::spec_from_u64(value))
    }
}

impl From<String> for Value {
    fn from(value: String) -> (v: Self) {
        Value::String(value)
    }
}

impl vstd::std_specs::convert::FromSpecImpl<String> for Value {
    open spec fn obeys_from_spec() -> bool {
        true
    }

    open spec fn from_spec(value: String) -> Self {
        Value::String(value)
    }
}

impl From<Number> for Value {
    fn from(value: Number) -> (v: Self) {
        Value::Number(value)
    }
}

impl vstd::std_specs::convert::FromSpecImpl<Number> for Value {
    open spec fn obeys_from_spec() -> bool {
        true
    }

    open spec fn from_spec(value: Number) -> Self {
        Value::Number(value)
    }
}

impl From<ObjectMap<Value>> for Value {
    fn from(value: ObjectMap<Value>) -> (v: Self) {
        Value::Object(value)
    }
}

impl vstd::std_specs::convert::FromSpecImpl<ObjectMap<Value>> for Value {
    open spec fn obeys_from_spec() -> bool {
        true
    }

    open spec fn from_spec(value: ObjectMap<Value>) -> Self {
        Value::Object(value)
    }
}

impl From<Vec<Value>> for Value {
    fn from(value: Vec<Value>) -> (v: Self) {
        Value::Array(value)
    }
}

impl vstd::std_specs::convert::FromSpecImpl<Vec<Value>> for Value {
    open spec fn obeys_from_spec() -> bool {
        true
    }

    open spec fn from_spec(value: Vec<Value>) -> Self {
        Value::Array(value)
    }
}

} // verus!
