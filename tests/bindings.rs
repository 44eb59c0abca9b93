use swift_rs::{
    begin_call, Bool, Int, Runtime, SRArray, SRData, SRObject, SRObjectArray, SRString, SwiftArg,
    SwiftObject, SwiftRef, SwiftRet,
};

/// Objects of the runtime that still hold a retain credit.
fn live_objects(rt: &Runtime) -> usize {
    (0..rt.object_count()).filter(|&a| rt.retain_count(a) > 0).count()
}

/// The foreign side returns a new string at +0: both of its objects are
/// handed to the current pool.
fn foreign_new_string(rt: &mut Runtime, text: &str) -> SRString {
    let first = rt.object_count();
    let s = SRString::from_str(rt, text);
    rt.autorelease(first);
    rt.autorelease(first + 1);
    s
}

fn foreign_get_greeting(rt: &mut Runtime, name: SwiftRef<SRString>) -> SRString {
    let text = format!("Hello {}!", name.target().as_str());
    foreign_new_string(rt, &text)
}

/// The foreign side returns its own argument: it retains the objects and
/// hands the new credits to the current pool.
fn foreign_echo(rt: &mut Runtime, string: SwiftRef<SRString>) -> SRString {
    let value = string.target();
    let outer = value.get_object().address();
    let inner = value.as_data().data().get_object().address();
    rt.retain(outer);
    rt.retain(inner);
    rt.autorelease(outer);
    rt.autorelease(inner);
    let data = SRData::from_raw(outer, SRArray::from_raw(inner, value.as_data().to_vec()));
    SRString::from_data(data).ok().unwrap()
}

fn get_greeting(rt: &mut Runtime, name: &SRString) -> SRString {
    let scope = begin_call(rt, true);
    let raw = foreign_get_greeting(rt, name.as_arg());
    scope.finish(rt, raw)
}

fn echo(rt: &mut Runtime, string: &SRString) -> SRString {
    let scope = begin_call(rt, true);
    let raw = foreign_echo(rt, string.as_arg());
    scope.finish(rt, raw)
}

/// A record of the runtime: a name, a number and a flag.
type Complex = (SRString, Int, Bool);

fn foreign_complex_data(rt: &mut Runtime) -> SRObjectArray<Complex> {
    let mut elements = Vec::new();
    for (name, b, c) in [("Brendan", 0, true), ("Amod", 1, false)] {
        let a = foreign_new_string(rt, name);
        let addr = rt.allocate();
        rt.autorelease(addr);
        elements.push(SRObject::from_raw(addr, (a, b, c)));
    }
    let array = rt.allocate();
    rt.autorelease(array);
    let outer = rt.allocate();
    rt.autorelease(outer);
    SRObject::from_raw(outer, SRArray::from_raw(array, elements))
}

fn complex_data(rt: &mut Runtime) -> SRObjectArray<Complex> {
    let scope = begin_call(rt, true);
    let raw = foreign_complex_data(rt);
    scope.finish(rt, raw)
}

fn foreign_send_and_get_data(rt: &mut Runtime, data: SwiftRef<SRData>) -> SRData {
    let bytes = data.target().to_vec();
    let first = rt.object_count();
    let r = SRData::from_slice(rt, &bytes);
    rt.autorelease(first);
    rt.autorelease(first + 1);
    r
}

fn send_and_get_data(rt: &mut Runtime, data: SRData) -> SRData {
    let scope = begin_call(rt, true);
    let raw = foreign_send_and_get_data(rt, data.as_arg());
    let r = scope.finish(rt, raw);
    data.release(rt);
    r
}

#[test]
fn test_string() {
    let mut rt = Runtime::new();
    let name = SRString::from_str(&mut rt, "Brendan");
    let greeting = get_greeting(&mut rt, &name);
    assert_eq!(greeting.as_str(), "Hello Brendan!");
    greeting.release(&mut rt);
    name.release(&mut rt);
    assert_eq!(live_objects(&rt), 0);
}

#[test]
fn test_reflection() {
    let mut rt = Runtime::new();
    let name = SRString::from_str(&mut rt, "Brendan");
    for _ in 0..10_000 {
        let reflected = echo(&mut rt, &name);
        assert_eq!(name.as_str(), reflected.as_str());
        assert_eq!(rt.retain_count(0), 2);
        reflected.release(&mut rt);
    }
    assert_eq!(rt.retain_count(0), 1);
    assert_eq!(rt.retain_count(1), 1);
    name.release(&mut rt);
    assert_eq!(live_objects(&rt), 0);
}

#[test]
fn test_memory_pressure() {
    let mut rt = Runtime::new();
    let name = SRString::from_str(&mut rt, "Brendan");
    for _ in 0..10_000 {
        let greeting = get_greeting(&mut rt, &name);
        assert_eq!(greeting.as_str(), "Hello Brendan!");
        greeting.release(&mut rt);
        assert_eq!(live_objects(&rt), 2);
    }
    name.release(&mut rt);
    assert_eq!(live_objects(&rt), 0);
}

#[test]
fn test_autoreleasepool() {
    let mut rt = Runtime::new();
    let name = SRString::from_str(&mut rt, "Brendan");
    for _ in 0..10_000 {
        let pool = rt.pool_push();
        let greeting = get_greeting(&mut rt, &name);
        assert_eq!(greeting.as_str(), "Hello Brendan!");
        greeting.release(&mut rt);
        rt.pool_pop(pool);
    }
    assert_eq!(rt.pool_depth(), 0);
    name.release(&mut rt);
    assert_eq!(live_objects(&rt), 0);
}

#[test]
fn test_complex() {
    let mut rt = Runtime::new();
    let mut v = vec![];
    for _ in 0..10_000 {
        let data = complex_data(&mut rt);
        let elements = data.as_ref().as_slice();
        assert_eq!(elements[0].as_ref().0.as_str(), "Brendan");
        v.push(data);
    }
    assert_eq!(live_objects(&rt), 10_000 * 8);
    for data in v {
        data.release(&mut rt);
    }
    assert_eq!(live_objects(&rt), 0);
}

#[test]
fn test_data() {
    let mut rt = Runtime::new();
    let mut v = vec![];
    let str: &str = "hello";
    let bytes: Vec<u8> = str.as_bytes().to_vec();
    for _ in 0..10_000 {
        let swift_byte: SRData = SRData::from_slice(&mut rt, &bytes);
        let data = send_and_get_data(&mut rt, swift_byte);
        let expected = SRData::from_slice(&mut rt, &bytes);
        assert_eq!(data.as_slice(), expected.as_slice());
        expected.release(&mut rt);
        v.push(data);
    }
    assert_eq!(live_objects(&rt), 10_000 * 2);
    for data in v {
        data.release(&mut rt);
    }
    assert_eq!(live_objects(&rt), 0);
}
