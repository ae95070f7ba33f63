use zorilla::config::{Config, RuleConfig};
use zorilla::report::Finding;
use zorilla::rules::zr002_sleep::{SleepRule, MESSAGE};
use zorilla::rules::Context;
use zorilla::suppress::Suppressions;
use zorilla::tree::parse;

fn run(src: &str) -> Vec<Finding> {
    run_with(src, &Config::default().rule_config())
}

fn run_with(src: &str, config: &RuleConfig) -> Vec<Finding> {
    let tree = parse(src).unwrap();
    let suppressions = Suppressions::empty();
    let ctx = Context { file: "example.py", source: src, tree: &tree, config, suppressions: &suppressions };
    let mut out = Vec::new();
    SleepRule.check(&ctx, &mut out);
    out
}

#[test]
fn fires_on_time_sleep_call() {
    let src = "\
import time

def test_waits():
    time.sleep(1)
";
    let out = run(src);
    assert_eq!(out.len(), 1);
    assert_eq!(out[0].code, "ZR002");
    assert_eq!(out[0].message, MESSAGE);
    assert_eq!(out[0].line, 4);
    assert_eq!(out[0].column, 5);
}

#[test]
fn fires_on_asyncio_sleep_call() {
    let src = "\
import asyncio

async def test_waits():
    await asyncio.sleep(0.1)
";
    let out = run(src);
    assert_eq!(out.len(), 1);
    assert_eq!(out[0].line, 4);
}

#[test]
fn fires_on_bare_sleep_call() {
    let src = "\
from time import sleep

def test_waits():
    sleep(2)
";
    let out = run(src);
    assert_eq!(out.len(), 1);
    assert_eq!(out[0].line, 4);
    assert_eq!(out[0].column, 5);
}

#[test]
fn fires_on_each_sleep_call_in_test() {
    let src = "\
import time

def test_many():
    time.sleep(1)
    time.sleep(2)
";
    let out = run(src);
    assert_eq!(out.len(), 2);
    assert_eq!(out[0].line, 4);
    assert_eq!(out[1].line, 5);
}

#[test]
fn fires_on_sleep_inside_nested_helper() {
    let src = "\
import time

def test_with_helper():
    def inner():
        time.sleep(1)
    inner()
";
    let out = run(src);
    assert_eq!(out.len(), 1);
    assert_eq!(out[0].line, 5);
}

#[test]
fn does_not_fire_on_non_sleep_calls() {
    let src = "\
def test_plain():
    do_something()
    assert True
";
    assert!(run(src).is_empty());
}

#[test]
fn does_not_fire_on_sleep_outside_any_test() {
    let src = "\
import time

def _helper():
    time.sleep(1)

def test_clean():
    assert True
";
    assert!(run(src).is_empty());
}

#[test]
fn does_not_fire_on_attribute_ending_in_other_name() {
    // `time.monotonic()` is not a sleep even though it's an attribute
    // call on `time`.
    let src = "\
import time

def test_mono():
    t = time.monotonic()
    assert t > 0
";
    assert!(run(src).is_empty());
}

#[test]
fn does_not_fire_on_variable_named_sleep_not_called() {
    // A bare `sleep` identifier that isn't in call position is ignored.
    let src = "\
def test_refs():
    sleep = 1
    assert sleep == 1
";
    assert!(run(src).is_empty());
}

#[test]
fn zr002_sleep_fires_on_method_of_test_class() {
    let src = "\
import time

class TestClock:
    def test_method(self):
        time.sleep(1)
";
    let out = run(src);
    assert_eq!(out.len(), 1);
    assert_eq!(out[0].line, 5);
}
