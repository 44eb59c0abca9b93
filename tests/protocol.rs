use swift_rs::{
    balance::{balance_ptrs, retain_adjustments},
    begin_call, link_swift, link_swift_package, swift_ref, AutoreleaseScope, LinkError, Runtime,
    RuntimeCall, SRArray, SRData,
    SRObject, SRString, SwiftArg, SwiftObject, SwiftPaths, SwiftRet, SwiftTarget, SwiftTargetInfo,
};

/// A record of the runtime: a number and an optional object.
type Record = (isize, Option<SRObject<isize>>);

fn sorted(mut v: Vec<(usize, i64)>) -> Vec<(usize, i64)> {
    v.sort();
    v
}

fn target(rpath: bool, paths: &[&str]) -> SwiftTarget {
    SwiftTarget {
        target: SwiftTargetInfo {
            triple: "arm64-apple-macosx11.0".to_string(),
            unversioned_triple: "arm64-apple-macosx".to_string(),
            module_triple: "arm64-apple-macos".to_string(),
            swift_runtime_compatibility_version: "5.0".to_string(),
            libraries_require_rpath: rpath,
        },
        paths: SwiftPaths {
            runtime_library_paths: paths.iter().map(|p| p.to_string()).collect(),
            runtime_library_import_paths: vec![],
            runtime_resource_path: "/usr/lib/swift".to_string(),
        },
    }
}

#[test]
fn scalars_pass_through_unchanged() {
    assert_eq!(true.as_arg(), true);
    assert_eq!((-5isize).as_arg(), -5);
    assert_eq!(i8::MIN.as_arg(), i8::MIN);
    assert_eq!(i16::MAX.as_arg(), i16::MAX);
    assert_eq!((-123456i32).as_arg(), -123456);
    assert_eq!(i64::MIN.as_arg(), i64::MIN);
    assert_eq!(usize::MAX.as_arg(), usize::MAX);
    assert_eq!(255u8.as_arg(), 255);
    assert_eq!(65535u16.as_arg(), 65535);
    assert_eq!(u32::MAX.as_arg(), u32::MAX);
    assert_eq!(u64::MAX.as_arg(), u64::MAX);
}

#[test]
fn scalar_echo_round_trip() {
    let mut rt = Runtime::new();
    for x in [0i64, 1, -1, i64::MAX, i64::MIN] {
        let scope = begin_call(&mut rt, true);
        let passed = x.as_arg();
        let back = scope.finish(&mut rt, passed);
        assert_eq!(back, x);
    }
    assert_eq!(rt.pool_depth(), 0);
    assert_eq!(rt.object_count(), 0);
}

#[test]
fn string_round_trip() {
    let mut rt = Runtime::new();
    for text in ["Hello, World!", "", "a\0b\0", "h\u{e9}llo \u{2713} \u{1f389}"] {
        let s = SRString::from_str(&mut rt, text);
        assert_eq!(s.as_str(), text);
        assert_eq!(s.as_str().as_bytes(), text.as_bytes());
        assert_eq!(s.to_string(), text.to_string());
        assert_eq!(s.as_data().to_vec(), text.as_bytes().to_vec());
        s.release(&mut rt);
    }
}

#[test]
fn string_from_data_requires_utf8() {
    let mut rt = Runtime::new();
    let good = SRData::from_slice(&mut rt, "ok \u{e9}".as_bytes());
    let s = SRString::from_data(good).ok().unwrap();
    assert_eq!(s.as_str(), "ok \u{e9}");
    let bad = SRData::from_slice(&mut rt, &[0x66, 0xff, 0x6f]);
    let back = SRString::from_data(bad).err().unwrap();
    assert_eq!(back.as_slice(), &[0x66, 0xff, 0x6f]);
    let surrogate = SRData::from_slice(&mut rt, &[0xed, 0xa0, 0x80]);
    assert!(SRString::from_data(surrogate).is_err());
}

#[test]
fn data_views() {
    let mut rt = Runtime::new();
    let d = SRData::from_slice(&mut rt, &[1, 2, 3]);
    assert_eq!(d.as_slice(), &[1, 2, 3]);
    assert_eq!(d.into_slice(), &[1, 2, 3]);
    assert_eq!(d.to_vec(), vec![1, 2, 3]);
    assert_eq!(d.data().as_slice(), &[1, 2, 3]);
    assert_eq!(d.data().len(), 3);
    assert_eq!(rt.object_count(), 2);
    assert_eq!(rt.retain_count(0), 1);
    assert_eq!(rt.retain_count(1), 1);
    d.release(&mut rt);
    assert_eq!(rt.retain_count(0), 0);
    assert_eq!(rt.retain_count(1), 0);
}

#[test]
fn argument_is_a_borrow_of_the_root_object() {
    let mut rt = Runtime::new();
    let s = SRString::from_str(&mut rt, "x");
    let r = s.as_arg();
    assert_eq!(r.address(), 0);
    assert_eq!(swift_ref(&s).address(), s.get_object().address());
    assert_eq!(r.target().as_str(), "x");
    assert_eq!(rt.retain_count(0), 1);
}

#[test]
fn fresh_result_keeps_arguments_balanced() {
    let mut rt = Runtime::new();
    let args: Vec<SRString> = ["a", "b", "c"].iter().map(|t| SRString::from_str(&mut rt, t)).collect();
    let before: Vec<usize> = (0..rt.object_count()).map(|a| rt.retain_count(a)).collect();
    let scope = begin_call(&mut rt, true);
    let borrowed: Vec<usize> = args.iter().map(|a| a.as_arg().address()).collect();
    assert_eq!(borrowed, vec![0, 2, 4]);
    let ret = rt.allocate();
    rt.autorelease(ret);
    let result = scope.finish(&mut rt, SRObject::from_raw(ret, 42i32));
    for a in 0..before.len() {
        assert_eq!(rt.retain_count(a), before[a]);
    }
    assert_eq!(rt.retain_count(ret), 1);
    assert_eq!(*result.as_ref(), 42);
    assert_eq!(rt.pool_depth(), 0);
    result.release(&mut rt);
    assert_eq!(rt.retain_count(ret), 0);
}

#[test]
fn call_without_result_opens_no_pool() {
    let mut rt = Runtime::new();
    let scope = begin_call(&mut rt, false);
    assert_eq!(rt.pool_depth(), 0);
    scope.finish_void();
}

#[test]
fn optional_results_retain_only_when_present() {
    let mut rt = Runtime::new();
    let scope = begin_call(&mut rt, true);
    let a = rt.allocate();
    rt.autorelease(a);
    let some = scope.finish(&mut rt, Some(SRObject::from_raw(a, true)));
    assert_eq!(rt.retain_count(a), 1);
    let scope = begin_call(&mut rt, true);
    let none: Option<SRObject<bool>> = scope.finish(&mut rt, None);
    assert!(none.is_none());
    assert_eq!(rt.retain_count(a), 1);
    some.release(&mut rt);
    assert_eq!(rt.retain_count(a), 0);
}

#[test]
fn array_of_three_records_with_optional_field() {
    let mut rt = Runtime::new();
    let scope = begin_call(&mut rt, true);
    let mut elements = Vec::new();
    for (i, present) in [(1isize, true), (2, false), (3, true)] {
        let extra = if present {
            let e = rt.allocate();
            rt.autorelease(e);
            Some(SRObject::from_raw(e, i * 100))
        } else {
            None
        };
        let addr = rt.allocate();
        rt.autorelease(addr);
        elements.push(SRObject::from_raw(addr, (i, extra)));
    }
    let array = rt.allocate();
    rt.autorelease(array);
    let outer = rt.allocate();
    rt.autorelease(outer);
    let raw = SRObject::from_raw(outer, SRArray::from_raw(array, elements));
    let result = scope.finish(&mut rt, raw);
    let view = result.as_ref();
    assert_eq!(view.len(), 3);
    let items = view.as_slice();
    assert_eq!(items[0].as_ref().0, 1);
    assert_eq!(*items[0].as_ref().1.as_ref().unwrap().as_ref(), 100);
    assert_eq!(items[1].as_ref().0, 2);
    assert!(items[1].as_ref().1.is_none());
    assert_eq!(items[2].as_ref().0, 3);
    assert_eq!(*items[2].as_ref().1.as_ref().unwrap().as_ref(), 300);
    for a in 0..rt.object_count() {
        assert_eq!(rt.retain_count(a), 1);
    }
    result.release(&mut rt);
    for a in 0..rt.object_count() {
        assert_eq!(rt.retain_count(a), 0);
    }
}

#[test]
fn nested_pools_release_on_pop() {
    let mut rt = Runtime::new();
    let x = rt.allocate();
    let y = rt.allocate();
    let a = rt.pool_push();
    rt.autorelease(x);
    let b = rt.pool_push();
    rt.autorelease(y);
    assert_eq!(rt.pool_depth(), 2);
    rt.pool_pop(b);
    assert_eq!(rt.retain_count(y), 0);
    assert_eq!(rt.retain_count(x), 1);
    rt.pool_pop(a);
    assert_eq!(rt.retain_count(x), 0);
    assert_eq!(rt.pool_depth(), 0);
}

fn failing_step(rt: &mut Runtime, obj: usize) -> Result<(), &'static str> {
    let scope = AutoreleaseScope::open(rt);
    rt.autorelease(obj);
    let outcome = Err("foreign call failed");
    scope.close(rt, outcome)
}

#[test]
fn pool_is_popped_on_error_path() {
    let mut rt = Runtime::new();
    let obj = rt.allocate();
    assert_eq!(failing_step(&mut rt, obj), Err("foreign call failed"));
    assert_eq!(rt.pool_depth(), 0);
    assert_eq!(rt.retain_count(obj), 0);
    assert_eq!(rt.issued_calls(), &[RuntimeCall::PoolPush, RuntimeCall::PoolPop]);
}

#[test]
fn scope_passes_success_through() {
    let mut rt = Runtime::new();
    let scope = AutoreleaseScope::open(&mut rt);
    assert_eq!(rt.pool_depth(), 1);
    let out: Result<i32, ()> = scope.close(&mut rt, Ok(7));
    assert_eq!(out, Ok(7));
    assert_eq!(rt.pool_depth(), 0);
}

#[test]
fn calls_are_recorded_in_order() {
    let mut rt = Runtime::new();
    let name = SRString::from_str(&mut rt, "Brendan");
    assert!(rt.issued_calls().is_empty());
    let scope = begin_call(&mut rt, true);
    let ret = rt.allocate();
    rt.autorelease(ret);
    let _passed = name.as_arg();
    let result = scope.finish(&mut rt, SRObject::from_raw(ret, 1u8));
    result.release(&mut rt);
    name.release(&mut rt);
    assert_eq!(
        rt.issued_calls(),
        &[
            RuntimeCall::PoolPush,
            RuntimeCall::Retain(ret),
            RuntimeCall::PoolPop,
            RuntimeCall::Release(ret),
            RuntimeCall::Release(0),
            RuntimeCall::Release(1),
        ]
    );
}

#[test]
fn adjustments_exact_values() {
    let args = vec![(1, true), (1, true), (2, false), (4, true)];
    let ret = vec![(1, false), (3, false), (3, false), (4, true)];
    let adj = sorted(retain_adjustments(&args, &ret));
    assert_eq!(adj, vec![(1, 1), (2, -1), (3, 2), (4, 0)]);
    assert!(retain_adjustments(&vec![], &vec![]).is_empty());
}

#[test]
fn aliased_result_gets_one_retain() {
    let mut rt = Runtime::new();
    let a = rt.allocate();
    for _ in 0..10_000 {
        assert_eq!(retain_adjustments(&vec![(a, true)], &vec![(a, false)]), vec![(a, 1)]);
        balance_ptrs(&mut rt, &vec![(a, true)], &vec![(a, false)]);
        assert_eq!(rt.retain_count(a), 2);
        rt.release(a);
    }
    assert_eq!(rt.retain_count(a), 1);
}

#[test]
fn balancing_releases_consumed_values() {
    let mut rt = Runtime::new();
    let a = rt.allocate();
    let b = rt.allocate();
    rt.retain(a);
    rt.retain(a);
    balance_ptrs(&mut rt, &vec![(a, false), (a, false)], &vec![(b, false)]);
    assert_eq!(rt.retain_count(a), 1);
    assert_eq!(rt.retain_count(b), 2);
}

#[test]
fn link_refuses_rpath_libraries() {
    let r = link_swift(&target(true, &["/usr/lib/swift"]));
    assert!(matches!(r, Err(LinkError::LibrariesRequireRPath)));
}

#[test]
fn link_search_directives() {
    let r = link_swift(&target(false, &["/usr/lib/swift", "/opt/swift/lib"])).ok().unwrap();
    assert_eq!(
        r,
        vec![
            "cargo:rustc-link-search=native=/usr/lib/swift".to_string(),
            "cargo:rustc-link-search=native=/opt/swift/lib".to_string(),
        ]
    );
    assert!(link_swift(&target(false, &[])).ok().unwrap().is_empty());
}

#[test]
fn link_package_directives() {
    let r = link_swift_package("swift-lib", "./swift-lib/", "debug", &target(false, &[]));
    assert_eq!(
        r,
        vec![
            "cargo:rustc-link-search=native=./swift-lib/.build/arm64-apple-macosx/debug".to_string(),
            "cargo:rustc-link-lib=static=swift-lib".to_string(),
        ]
    );
}

#[test]
fn link_package_root_without_trailing_slash() {
    let with_slash = link_swift_package("swift-lib", "./swift-lib/", "debug", &target(false, &[]));
    let without = link_swift_package("swift-lib", "./swift-lib", "debug", &target(false, &[]));
    assert_eq!(with_slash, without);
    assert_eq!(
        without[0],
        "cargo:rustc-link-search=native=./swift-lib/.build/arm64-apple-macosx/debug".to_string()
    );
}

#[test]
fn link_package_empty_root() {
    let r = link_swift_package("pkg", "", "release", &target(false, &[]));
    assert_eq!(r[0], "cargo:rustc-link-search=native=.build/arm64-apple-macosx/release".to_string());
    let r = link_swift_package("pkg", "/tmp/\u{e9}", "release", &target(false, &[]));
    assert_eq!(r[0], "cargo:rustc-link-search=native=/tmp/\u{e9}/.build/arm64-apple-macosx/release".to_string());
}
