use vstd::prelude::*;

verus! {

/// The one error kind of evaluation: a human-readable message.
#[derive(Debug)]
pub struct TalkEvalError {
    pub text: String,
}

impl TalkEvalError {
    pub fn new(text: &str) -> (r: Self)
        ensures
            r.text@ == text@,
    {
        TalkEvalError { text: text.to_string() }
    }
}

/// Relies on String::push_str: appends the characters of `tail`.
#[verifier::external_body]
fn append(s: &mut String, tail: &str)
    ensures
        final(s)@ == old(s)@ + tail@,
{
    s.push_str(tail)
}

/// A structure that can stand in for a namespace's own storage.
pub trait TalkObjectProxy<V> {
    fn get(&mut self, name: &str) -> Option<&mut V>;

    fn set(&mut self, name: &str, val: V);

    fn is_empty(&self) -> bool {
        false
    }
}

/// The delegate type of a namespace that never delegates.
#[derive(Debug)]
pub struct NoProxy {}

impl<V> TalkObjectProxy<V> for NoProxy {
    fn get(&mut self, _name: &str) -> Option<&mut V> {
        None
    }

    fn set(&mut self, _name: &str, _val: V) {
    }
}

/// A dynamically typed value. `D` is the type of the delegates that
/// namespaces inside the value may borrow.
#[derive(Debug)]
pub enum TalkValue<'world, D = NoProxy> {
    Int(i64),
    String(String),
    Bool(bool),
    Object(Box<TalkObject<'world, D>>),
}

/// A namespace: fields by name, or a borrowed delegate that serves them.
#[derive(Debug)]
pub struct TalkObject<'world, D = NoProxy> {
    map: Vec<(String, TalkValue<'world, D>)>,
    proxy: Option<&'world mut D>,
}

spec fn keys_of<'world, D>(e: Seq<(String, TalkValue<'world, D>)>) -> Seq<Seq<char>> {
    e.map_values(|p: (String, TalkValue<'world, D>)| p.0@)
}

/// Position of the first key equal to `k`, or -1.
spec fn key_index(keys: Seq<Seq<char>>, k: Seq<char>) -> int
    decreases keys.len(),
{
    if keys.len() == 0 {
        -1
    } else {
        let j = key_index(keys.drop_last(), k);
        if j >= 0 {
            j
        } else if keys.last() == k {
            keys.len() - 1
        } else {
            -1
        }
    }
}

/// The fields that a list of entries gives: for each name, the value of its
/// first entry.
pub closed spec fn fields_of<'world, D>(e: Seq<(String, TalkValue<'world, D>)>) -> Map<Seq<char>, TalkValue<'world, D>> {
    Map::new(
        |k: Seq<char>| key_index(keys_of(e), k) >= 0,
        |k: Seq<char>| e[key_index(keys_of(e), k)].1,
    )
}

proof fn lemma_key_index(keys: Seq<Seq<char>>, k: Seq<char>)
    ensures
        -1 <= key_index(keys, k) < keys.len(),
        key_index(keys, k) >= 0 ==> keys[key_index(keys, k)] == k,
        forall|j: int| 0 <= j < keys.len() && keys[j] == k ==> key_index(keys, k) >= 0,
        forall|j: int| 0 <= j < key_index(keys, k) ==> keys[j] != k,
    decreases keys.len(),
{
    if keys.len() > 0 {
        let init = keys.drop_last();
        lemma_key_index(init, k);
        assert forall|j: int| 0 <= j < init.len() implies init[j] == keys[j] by {}
        if key_index(init, k) < 0 && keys.last() != k {
            assert forall|j: int| 0 <= j < keys.len() implies keys[j] != k by {
                if j < init.len() {
                    assert(init[j] == keys[j]);
                }
            }
        }
    }
}

proof fn lemma_fields_push<'world, D>(e: Seq<(String, TalkValue<'world, D>)>, s: String, v: TalkValue<'world, D>)
    requires
        !fields_of(e).contains_key(s@),
    ensures
        fields_of(e.push((s, v))) == fields_of(e).insert(s@, v),
{
    let e2 = e.push((s, v));
    let ks = keys_of(e);
    let ks2 = keys_of(e2);
    assert(ks2.drop_last() =~= ks);
    assert(ks2.last() == s@);
    assert forall|k: Seq<char>| #[trigger] fields_of(e2).contains_key(k) == fields_of(e).insert(s@, v).contains_key(k)
        by {}
    assert forall|k: Seq<char>| #[trigger] fields_of(e2).contains_key(k) implies fields_of(e2)[k]
        == fields_of(e).insert(s@, v)[k] by {
        lemma_key_index(ks, k);
        let i = key_index(ks, k);
        if i >= 0 {
            assert(key_index(ks2, k) == i);
            assert(ks[i] == k);
            assert(e[i].0@ == k);
            assert(e2[i] == e[i]);
        } else {
            assert(k == s@);
            assert(key_index(ks2, k) == e.len());
        }
    }
    assert(fields_of(e2) =~= fields_of(e).insert(s@, v));
}

proof fn lemma_fields_update<'world, D>(e: Seq<(String, TalkValue<'world, D>)>, i: int, s: String, v: TalkValue<'world, D>)
    requires
        0 <= i < e.len(),
        s@ == e[i].0@,
        key_index(keys_of(e), s@) == i,
    ensures
        fields_of(e.update(i, (s, v))) == fields_of(e).insert(s@, v),
{
    let e2 = e.update(i, (s, v));
    assert(keys_of(e2) =~= keys_of(e));
    let ks = keys_of(e);
    assert forall|k: Seq<char>| #[trigger] fields_of(e2).contains_key(k) == fields_of(e).insert(s@, v).contains_key(k)
        by {}
    assert forall|k: Seq<char>| #[trigger] fields_of(e2).contains_key(k) implies fields_of(e2)[k]
        == fields_of(e).insert(s@, v)[k] by {
        lemma_key_index(ks, k);
        let j = key_index(ks, k);
        if k != s@ {
            assert(ks[j] == k);
            assert(ks[i] == s@);
            assert(j != i);
            assert(e2[j] == e[j]);
        }
    }
    assert(fields_of(e2) =~= fields_of(e).insert(s@, v));
}

proof fn lemma_fields_empty<'world, D>(e: Seq<(String, TalkValue<'world, D>)>)
    ensures
        (e.len() == 0) == fields_of(e).is_empty(),
{
    if e.len() > 0 {
        lemma_key_index(keys_of(e), e[0].0@);
        assert(keys_of(e)[0] == e[0].0@);
        assert(fields_of(e).contains_key(e[0].0@));
    } else {
        assert(fields_of(e) =~= Map::empty());
    }
}

/// The message of a failed `as_object` on a value of kind `kind`.
pub open spec fn object_expected(kind: Seq<char>) -> Seq<char> {
    "Object expected, got "@ + kind
}

/// The message of a failed `into_int` on `v`.
pub open spec fn integer_expected<'world, D>(v: TalkValue<'world, D>) -> Seq<char> {
    match v {
        TalkValue::String(s) => "Integer value expected, got String "@ + s@,
        TalkValue::Bool(b) => "Integer value expected, got Bool "@ + (if b {
            "true"@
        } else {
            "false"@
        }),
        _ => "Integer value expected, got "@ + v.kind(),
    }
}

impl<'world, D> TalkValue<'world, D> {
    /// The name of the value's variant.
    pub open spec fn kind(&self) -> Seq<char> {
        match self {
            TalkValue::Int(_) => "Int"@,
            TalkValue::String(_) => "String"@,
            TalkValue::Bool(_) => "Bool"@,
            TalkValue::Object(_) => "Object"@,
        }
    }

    /// An object whose fields a delegate serves.
    pub open spec fn is_delegating_object(&self) -> bool {
        match self {
            TalkValue::Object(o) => o.delegated(),
            _ => false,
        }
    }

    /// Truthiness of a value that is not a delegating object.
    pub open spec fn truthy(&self) -> bool {
        match self {
            TalkValue::Int(i) => *i != 0,
            TalkValue::String(s) => s@.len() > 0,
            TalkValue::Bool(b) => *b,
            TalkValue::Object(o) => !o.fields().is_empty(),
        }
    }

    /// An object with no fields that serves them itself.
    pub open spec fn is_empty_object(&self) -> bool {
        match self {
            TalkValue::Object(o) => !o.delegated() && o.fields().is_empty(),
            _ => false,
        }
    }
}

impl<'world, D> TalkObject<'world, D> {
    /// Whether a delegate serves this namespace's fields.
    pub closed spec fn delegated(&self) -> bool {
        self.proxy is Some
    }

    /// The namespace's own fields, by name.
    pub closed spec fn fields(&self) -> Map<Seq<char>, TalkValue<'world, D>> {
        fields_of(self.map@)
    }

    /// Whether the value is what a read of field `k` hands out before any
    /// write: the stored value where there is one, else an empty object.
    pub open spec fn reads_as(&self, k: Seq<char>, v: TalkValue<'world, D>) -> bool {
        if self.fields().contains_key(k) {
            v == self.fields()[k]
        } else {
            v.is_empty_object()
        }
    }

    /// Position of the entry that holds `name`, if any.
    fn find(&self, name: &String) -> (r: Option<usize>)
        ensures
            match r {
                Some(i) => i < self.map@.len() && key_index(keys_of(self.map@), name@) == i
                    && self.map@[i as int].0@ == name@,
                None => !self.fields().contains_key(name@),
            },
    {
        let ghost keys = keys_of(self.map@);
        let mut i: usize = 0;
        while i < self.map.len()
            invariant
                i <= self.map@.len(),
                keys == keys_of(self.map@),
                forall|j: int| 0 <= j < i ==> keys[j] != name@,
            decreases self.map@.len() - i,
        {
            if self.map[i].0 == *name {
                proof {
                    lemma_key_index(keys, name@);
                    assert(keys[i as int] == name@);
                }
                return Some(i);
            }
            i += 1;
        }
        proof {
            lemma_key_index(keys, name@);
        }
        None
    }
}

impl<'world, D: TalkObjectProxy<TalkValue<'world, D>>> TalkValue<'world, D> {
    pub fn new_obj() -> (r: Self)
        ensures
            r.is_empty_object(),
    {
        TalkValue::Object(Box::new(TalkObject::new()))
    }

    pub fn new_str(s: &str) -> (r: Self)
        ensures
            r is String && r->String_0@ == s@,
    {
        TalkValue::String(s.to_string())
    }

    pub fn new_int(i: i64) -> (r: Self)
        ensures
            r == TalkValue::<'world, D>::Int(i),
    {
        TalkValue::Int(i)
    }

    /// Truthiness: an integer when non-zero, a text when non-empty, a boolean
    /// as it is, an object as its delegate reports or when it has fields.
    pub fn as_bool(&self) -> (r: bool)
        ensures
            !self.is_delegating_object() ==> r == self.truthy(),
    {
        match self {
            TalkValue::Int(i) => *i != 0,
            TalkValue::String(s) => !s.as_str().is_empty(),
            TalkValue::Bool(b) => *b,
            TalkValue::Object(o) => !o.is_empty(),
        }
    }

    /// The namespace inside an object value, or a type mismatch error.
    pub fn as_object(&mut self) -> (r: Result<&mut TalkObject<'world, D>, TalkEvalError>)
        ensures
            match *old(self) {
                TalkValue::Object(o) => r is Ok && *r->Ok_0 == *o && *final(self) == TalkValue::<'world, D>::Object(
                    Box::new(*final(r->Ok_0)),
                ),
                _ => r is Err && r->Err_0.text@ == object_expected(old(self).kind()) && *final(self) == *old(self),
            },
    {
        match self {
            TalkValue::Int(_) => {
                proof {
                    reveal_strlit("Object expected, got Int");
                    reveal_strlit("Object expected, got ");
                    reveal_strlit("Int");
                    assert("Object expected, got Int"@ =~= object_expected("Int"@));
                }
                Err(TalkEvalError::new("Object expected, got Int"))
            },
            TalkValue::String(_) => {
                proof {
                    reveal_strlit("Object expected, got String");
                    reveal_strlit("Object expected, got ");
                    reveal_strlit("String");
                    assert("Object expected, got String"@ =~= object_expected("String"@));
                }
                Err(TalkEvalError::new("Object expected, got String"))
            },
            TalkValue::Bool(_) => {
                proof {
                    reveal_strlit("Object expected, got Bool");
                    reveal_strlit("Object expected, got ");
                    reveal_strlit("Bool");
                    assert("Object expected, got Bool"@ =~= object_expected("Bool"@));
                }
                Err(TalkEvalError::new("Object expected, got Bool"))
            },
            TalkValue::Object(o) => Ok(&mut **o),
        }
    }

    /// The integer inside an integer value, or a type mismatch error that
    /// shows a text or boolean value.
    pub fn into_int(self) -> (r: Result<i64, TalkEvalError>)
        ensures
            match self {
                TalkValue::Int(i) => r == Ok::<i64, TalkEvalError>(i),
                _ => r is Err && r->Err_0.text@ == integer_expected(self),
            },
    {
        match self {
            TalkValue::Int(i) => Ok(i),
            TalkValue::String(s) => {
                let mut text = "Integer value expected, got String ".to_string();
                append(&mut text, s.as_str());
                Err(TalkEvalError { text })
            },
            TalkValue::Bool(b) => {
                let mut text = "Integer value expected, got Bool ".to_string();
                append(&mut text, if b { "true" } else { "false" });
                Err(TalkEvalError { text })
            },
            TalkValue::Object(_) => {
                proof {
                    reveal_strlit("Integer value expected, got Object");
                    reveal_strlit("Integer value expected, got ");
                    reveal_strlit("Object");
                    assert("Integer value expected, got Object"@ =~= "Integer value expected, got "@ + "Object"@);
                }
                Err(TalkEvalError::new("Integer value expected, got Object"))
            },
        }
    }
}

impl<'world, D: TalkObjectProxy<TalkValue<'world, D>>> TalkObject<'world, D> {
    pub fn new() -> (r: Self)
        ensures
            r.fields().is_empty(),
            !r.delegated(),
    {
        let r = TalkObject { map: Vec::new(), proxy: None };
        proof {
            lemma_fields_empty(r.map@);
        }
        r
    }

    /// Installs `proxy` as the delegate; the namespace's own fields stay as
    /// they were, unused while the delegate is there.
    pub fn set_proxy(&mut self, proxy: &'world mut D)
        ensures
            final(self).delegated(),
            final(self).fields() == old(self).fields(),
    {
        self.proxy = Some(proxy);
    }

    /// Removes the delegate, if any, and hands it back; the namespace's own
    /// fields serve again.
    pub fn take_proxy(&mut self) -> (r: Option<&'world mut D>)
        ensures
            r is Some == old(self).delegated(),
            !final(self).delegated(),
            final(self).fields() == old(self).fields(),
    {
        self.proxy.take()
    }

    /// The namespace's own fields as a list of (name, value) entries; the
    /// delegate, if any, is let go.
    pub fn into_entries(self) -> (r: Vec<(String, TalkValue<'world, D>)>)
        ensures
            fields_of(r@) == self.fields(),
    {
        self.map
    }

    /// With a delegate, what the delegate reports; else whether there are no
    /// fields.
    pub fn is_empty(&self) -> (r: bool)
        ensures
            !self.delegated() ==> r == self.fields().is_empty(),
    {
        match &self.proxy {
            Some(p) => p.is_empty(),
            None => {
                proof {
                    lemma_fields_empty(self.map@);
                }
                self.map.len() == 0
            },
        }
    }

    /// Reads field `name`. With a delegate, the delegate's answer. Without
    /// one, a reference to the stored value; a missing field is first created
    /// as an empty object.
    pub fn get(&mut self, name: &str) -> (r: Option<&mut TalkValue<'world, D>>)
        ensures
            old(self).delegated() ==> final(self).delegated() && final(self).fields() == old(self).fields(),
            !old(self).delegated() ==> r is Some && !final(self).delegated() && old(self).reads_as(name@, *r->0)
                && final(self).fields() == old(self).fields().insert(name@, *final(r->0)),
    {
        if self.proxy.is_some() {
            match &mut self.proxy {
                Some(p) => p.get(name),
                None => None,
            }
        } else {
            let key = name.to_string();
            let i: usize = match self.find(&key) {
                Some(i) => i,
                None => {
                    let i = self.map.len();
                    let fresh = TalkValue::new_obj();
                    proof {
                        let pushed = self.map@.push((key, fresh));
                        lemma_fields_push(self.map@, key, fresh);
                        lemma_key_index(keys_of(self.map@), key@);
                        lemma_key_index(keys_of(pushed), key@);
                        assert(keys_of(pushed)[i as int] == key@);
                        let j = key_index(keys_of(pushed), key@);
                        if j < i {
                            assert(keys_of(pushed)[j] == keys_of(self.map@)[j]);
                        }
                    }
                    self.map.push((key, fresh));
                    i
                },
            };
            let ghost mid = self.map@;
            proof {
                assert forall|v: TalkValue<'world, D>| #[trigger] fields_of(mid.update(i as int, (mid[i as int].0, v)))
                    == fields_of(mid).insert(name@, v) by {
                    lemma_fields_update(mid, i as int, mid[i as int].0, v);
                }
            }
            Some(&mut self.map[i].1)
        }
    }

    /// Writes field `name`. With a delegate, the delegate takes the write;
    /// without one, the field is created or its old value replaced.
    pub fn set(&mut self, name: &str, val: TalkValue<'world, D>)
        ensures
            old(self).delegated() ==> final(self).delegated() && final(self).fields() == old(self).fields(),
            !old(self).delegated() ==> !final(self).delegated() && final(self).fields() == old(self).fields().insert(
                name@,
                val,
            ),
    {
        if self.proxy.is_some() {
            match &mut self.proxy {
                Some(p) => p.set(name, val),
                None => {},
            }
        } else {
            let key = name.to_string();
            match self.find(&key) {
                Some(i) => {
                    proof {
                        lemma_fields_update(self.map@, i as int, key, val);
                    }
                    self.map.set(i, (key, val));
                },
                None => {
                    proof {
                        lemma_fields_push(self.map@, key, val);
                    }
                    self.map.push((key, val));
                },
            }
        }
    }
}

/// A namespace can itself serve as another namespace's delegate.
impl<'world, D: TalkObjectProxy<TalkValue<'world, D>>> TalkObjectProxy<TalkValue<'world, D>> for TalkObject<'world, D> {
    fn get(&mut self, name: &str) -> Option<&mut TalkValue<'world, D>> {
        TalkObject::get(self, name)
    }

    fn set(&mut self, name: &str, val: TalkValue<'world, D>) {
        TalkObject::set(self, name, val)
    }

    fn is_empty(&self) -> bool {
        TalkObject::is_empty(self)
    }
}

/// What evaluating a node gives: a value of its own, or a reference into the
/// storage of the namespace that was evaluated against.
#[derive(Debug)]
pub enum EvalValue<'ctx, 'world, D = NoProxy> {
    Produced(TalkValue<'world, D>),
    Borrowed(&'ctx mut TalkValue<'world, D>),
}

pub type EvalResult<'ctx, 'world, D = NoProxy> = Result<EvalValue<'ctx, 'world, D>, TalkEvalError>;

/// A node that can be evaluated against a namespace. The node's borrow
/// (`'ast`) and the namespace's (`'ctx`) are independent: a borrowed result
/// lives as long as the namespace's borrow, however short-lived the node.
pub trait Eval<'world, 'ast, D: 'world> {
    fn eval<'ctx>(&'ast self, context: &'ctx mut TalkObject<'world, D>) -> EvalResult<'ctx, 'world, D>;
}

#[derive(Debug, Clone)]
pub enum Expression {
    /// Reads the field named `42`.
    Dummy,
    /// An integer literal.
    Literal(i64),
}

/// The name of the field that `Expression::Dummy` reads.
pub open spec fn dummy_field() -> Seq<char> {
    "42"@
}

impl<'world, 'ast, D: TalkObjectProxy<TalkValue<'world, D>> + 'world> Eval<'world, 'ast, D> for Expression {
    fn eval<'ctx>(&'ast self, context: &'ctx mut TalkObject<'world, D>) -> (r: EvalResult<'ctx, 'world, D>)
        ensures
            match *self {
                Expression::Literal(i) => *final(context) == *old(context) && match r {
                    Ok(EvalValue::Produced(v)) => v == TalkValue::<'world, D>::Int(i),
                    _ => false,
                },
                Expression::Dummy => if old(context).delegated() {
                    final(context).delegated() && final(context).fields() == old(context).fields() && match r {
                        Ok(EvalValue::Borrowed(_)) => true,
                        Err(e) => e.text@ == "Field unavailable: 42"@,
                        _ => false,
                    }
                } else {
                    !final(context).delegated() && match r {
                        Ok(EvalValue::Borrowed(v)) => old(context).reads_as(dummy_field(), *v)
                            && final(context).fields() == old(context).fields().insert(dummy_field(), *final(v)),
                        _ => false,
                    }
                },
            },
    {
        match self {
            Expression::Literal(i) => Ok(EvalValue::Produced(TalkValue::Int(*i))),
            Expression::Dummy => match context.get("42") {
                Some(v) => Ok(EvalValue::Borrowed(v)),
                None => Err(TalkEvalError::new("Field unavailable: 42")),
            },
        }
    }
}

/// A text value is truthy exactly when it is non-empty.
pub proof fn law_text_truthiness<'world, D>(s: String)
    ensures
        !TalkValue::<'world, D>::String(s).is_delegating_object(),
        TalkValue::<'world, D>::String(s).truthy() == (s@.len() > 0),
{
}

/// An integer value is truthy exactly when it is non-zero.
pub proof fn law_integer_truthiness<'world, D>(i: i64)
    ensures
        !TalkValue::<'world, D>::Int(i).is_delegating_object(),
        TalkValue::<'world, D>::Int(i).truthy() == (i != 0),
{
}

/// Reading a missing field of a namespace without a delegate creates it as
/// an empty object, so the namespace is no longer empty; reading it again,
/// with the first reference left as it was, finds that same object and adds
/// no field.
pub proof fn law_read_creates_once<'world, D>(
    before: TalkObject<'world, D>,
    mid: TalkObject<'world, D>,
    after: TalkObject<'world, D>,
    k: Seq<char>,
    first: TalkValue<'world, D>,
    second: TalkValue<'world, D>,
)
    requires
        !before.delegated(),
        !before.fields().contains_key(k),
        before.reads_as(k, first),
        !mid.delegated(),
        mid.fields() == before.fields().insert(k, first),
        mid.reads_as(k, second),
        after.fields() == mid.fields().insert(k, second),
    ensures
        first.is_empty_object(),
        second == first,
        after.fields() == mid.fields(),
        after.fields().dom() == before.fields().dom().insert(k),
        !after.fields().is_empty(),
{
    assert(after.fields() =~= mid.fields());
    assert(after.fields().contains_key(k));
}

/// After field `k` of a namespace without a delegate is set to `v`, reading
/// `k` hands out `v`.
pub proof fn law_set_then_get<'world, D>(
    before: TalkObject<'world, D>,
    mid: TalkObject<'world, D>,
    k: Seq<char>,
    v: TalkValue<'world, D>,
    seen: TalkValue<'world, D>,
)
    requires
        !before.delegated(),
        mid.fields() == before.fields().insert(k, v),
        mid.reads_as(k, seen),
    ensures
        seen == v,
{
}

} // verus!
