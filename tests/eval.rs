use talk_eval::eval::{Eval, EvalValue, Expression, NoProxy, TalkEvalError, TalkObject, TalkObjectProxy, TalkValue};

#[derive(Debug)]
struct DummyProxy<'world> {
    value: TalkValue<'world, DummyProxy<'world>>,
}

impl<'world> DummyProxy<'world> {
    pub fn new() -> Self {
        Self { value: TalkValue::Bool(true) }
    }
}

impl<'world> TalkObjectProxy<TalkValue<'world, DummyProxy<'world>>> for DummyProxy<'world> {
    fn get(&mut self, _name: &str) -> Option<&mut TalkValue<'world, DummyProxy<'world>>> {
        println!("get()");
        Some(&mut self.value)
    }

    fn set(&mut self, _name: &str, val: TalkValue<'world, DummyProxy<'world>>) {
        println!("set()");
        self.value = val;
    }
}

#[test]
fn test_bool() {
    let mut dummy = DummyProxy::new();
    let mut context = TalkObject::new();
    let expr = Expression::Dummy;

    context.set_proxy(&mut dummy);

    let a = expr.eval(&mut context);
    println!("{:?}", a);
}

#[test]
fn text_truthiness() {
    assert!(TalkValue::<NoProxy>::new_str("hello").as_bool());
    assert!(TalkValue::<NoProxy>::new_str(" ").as_bool());
    assert!(!TalkValue::<NoProxy>::new_str("").as_bool());
}

#[test]
fn integer_truthiness() {
    for i in [0i64, 1, -1, 5, i64::MAX, i64::MIN] {
        assert_eq!(TalkValue::<NoProxy>::new_int(i).as_bool(), i != 0);
    }
}

#[test]
fn boolean_and_object_truthiness() {
    assert!(TalkValue::<NoProxy>::Bool(true).as_bool());
    assert!(!TalkValue::<NoProxy>::Bool(false).as_bool());
    let mut v: TalkValue = TalkValue::new_obj();
    assert!(!v.as_bool());
    v.as_object().unwrap().set("a", TalkValue::new_int(0));
    assert!(v.as_bool());
}

#[test]
fn fresh_namespace_is_empty() {
    let o: TalkObject = TalkObject::new();
    assert!(o.is_empty());
}

#[test]
fn read_creates_field_once() {
    let mut o: TalkObject = TalkObject::new();
    {
        let v = o.get("x").unwrap();
        assert!(matches!(v, TalkValue::Object(_)));
        assert!(!v.as_bool());
    }
    assert!(!o.is_empty());
    {
        let v = o.get("x").unwrap();
        assert!(matches!(v, TalkValue::Object(_)));
        v.as_object().unwrap().set("inner", TalkValue::new_int(1));
    }
    // the second read found the first object: what was written through it stays
    let v = o.get("x").unwrap();
    assert!(v.as_bool());
}

#[test]
fn set_then_get() {
    let mut o: TalkObject = TalkObject::new();
    o.set("x", TalkValue::new_int(5));
    assert!(matches!(o.get("x"), Some(TalkValue::Int(5))));
    o.set("x", TalkValue::new_str("five"));
    match o.get("x") {
        Some(TalkValue::String(s)) => assert_eq!(s, "five"),
        _ => panic!("expected the text just set"),
    }
}

#[test]
fn write_through_reference() {
    let mut o: TalkObject = TalkObject::new();
    o.set("a", TalkValue::new_obj());
    o.get("a").unwrap().as_object().unwrap().set("b", TalkValue::new_int(1));
    let b = o.get("a").unwrap().as_object().unwrap().get("b").unwrap();
    assert!(matches!(b, TalkValue::Int(1)));
    *b = TalkValue::new_int(2);
    let b = o.get("a").unwrap().as_object().unwrap().get("b").unwrap();
    assert!(matches!(b, TalkValue::Int(2)));
}

#[test]
fn delegate_is_transparent() {
    let mut dummy = DummyProxy::new();
    let mut context = TalkObject::new();
    context.set_proxy(&mut dummy);
    assert!(matches!(context.get("anything"), Some(TalkValue::Bool(true))));
    assert!(!context.is_empty());
    context.set("x", TalkValue::new_int(3));
    assert!(matches!(context.get("y"), Some(TalkValue::Int(3))));
    assert!(context.take_proxy().is_some());
    assert!(context.is_empty());
    assert!(context.take_proxy().is_none());
}

#[test]
fn namespace_as_delegate() {
    let mut inner: TalkObject = TalkObject::new();
    inner.set("k", TalkValue::new_int(9));
    assert!(matches!(TalkObjectProxy::get(&mut inner, "k"), Some(TalkValue::Int(9))));
    TalkObjectProxy::set(&mut inner, "j", TalkValue::Bool(false));
    assert!(!TalkObjectProxy::is_empty(&inner));
    assert!(matches!(inner.get("j"), Some(TalkValue::Bool(false))));
}

#[test]
fn as_object_mismatch() {
    let e = TalkValue::<NoProxy>::new_int(1).as_object().err().unwrap();
    assert_eq!(e.text, "Object expected, got Int");
    let e = TalkValue::<NoProxy>::new_str("s").as_object().err().unwrap();
    assert_eq!(e.text, "Object expected, got String");
    let e = TalkValue::<NoProxy>::Bool(true).as_object().err().unwrap();
    assert_eq!(e.text, "Object expected, got Bool");
    assert!(TalkValue::<NoProxy>::new_obj().as_object().is_ok());
}

#[test]
fn into_int_mismatch() {
    let e = TalkValue::<NoProxy>::new_str("abc").into_int().unwrap_err();
    assert!(e.text.contains("Integer"));
    assert!(e.text.contains("abc"));
    assert_eq!(e.text, "Integer value expected, got String abc");
    let e = TalkValue::<NoProxy>::Bool(true).into_int().unwrap_err();
    assert!(e.text.contains("true"));
    let e = TalkValue::<NoProxy>::Bool(false).into_int().unwrap_err();
    assert_eq!(e.text, "Integer value expected, got Bool false");
    let e = TalkValue::<NoProxy>::new_obj().into_int().unwrap_err();
    assert_eq!(e.text, "Integer value expected, got Object");
    assert_eq!(TalkValue::<NoProxy>::new_int(-7).into_int().unwrap(), -7);
}

#[test]
fn literal_eval_leaves_namespace_empty() {
    let mut context: TalkObject = TalkObject::new();
    let expr = Expression::Literal(42);
    match expr.eval(&mut context) {
        Ok(EvalValue::Produced(TalkValue::Int(i))) => assert_eq!(i, 42),
        _ => panic!("expected a produced integer"),
    }
    assert!(context.is_empty());
}

#[test]
fn dummy_eval_borrows_field() {
    let mut context: TalkObject = TalkObject::new();
    context.set("42", TalkValue::new_int(1));
    match Expression::Dummy.eval(&mut context) {
        Ok(EvalValue::Borrowed(v)) => *v = TalkValue::new_int(2),
        _ => panic!("expected a borrowed field"),
    }
    assert!(matches!(context.get("42"), Some(TalkValue::Int(2))));
}

#[test]
fn error_new_keeps_text() {
    let e = TalkEvalError::new("oops");
    assert_eq!(e.text, "oops");
}
