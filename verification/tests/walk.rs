use html_parser::for_each::{element, text, ForEach, NoBrk, NoErr, WalkCursor, WalkResult};
use html_parser::{Dom, Node};
use std::cell::Cell;
use std::convert::Infallible;
use std::ops::ControlFlow;

fn sample() -> Dom<'static> {
    Dom::parse("<div><p>one</p><p>two<b>three</b></p></div><span>four</span>").unwrap()
}

#[test]
fn for_each_visits_every_node_in_order() {
    let dom = sample();
    let seen = std::cell::RefCell::new(Vec::new());
    let r: Result<ControlFlow<(), ()>, Infallible> = dom.for_each(|n: &Node| {
        seen.borrow_mut().push(match n {
            Node::Element(e) => e.name.to_string(),
            Node::Text(t) => t.as_str().to_string(),
            Node::Comment(_) => String::from("#"),
        });
        WalkResult::<()>::Continue
    });
    assert!(matches!(r, Ok(ControlFlow::Continue(()))));
    assert_eq!(seen.into_inner(), vec!["div", "p", "one", "p", "two", "b", "three", "span", "four"]);
}

#[test]
fn for_each_skip_passes_over_children() {
    let dom = sample();
    let count = Cell::new(0);
    let _: Result<ControlFlow<(), ()>, Infallible> = dom.for_each(|n: &Node| {
        count.set(count.get() + 1);
        match n {
            Node::Element(e) if e.name == "p" => WalkResult::<()>::Skip,
            _ => WalkResult::Continue,
        }
    });
    // div, p, p, span, four
    assert_eq!(count.get(), 5);
}

#[test]
fn for_each_break_stops_with_value() {
    let dom = sample();
    let r: Result<ControlFlow<String, ()>, Infallible> = dom.for_each(element(|e: &html_parser::Element| {
        if e.name == "b" {
            WalkResult::Break(e.to_html())
        } else {
            WalkResult::Continue
        }
    }));
    match r {
        Ok(ControlFlow::Break(s)) => assert_eq!(s, "<b>three</b>"),
        _ => panic!("expected a break"),
    }
}

#[test]
fn for_each_error_ends_walk() {
    let dom = sample();
    let r: Result<ControlFlow<(), ()>, String> = dom.for_each(text(|t: &html_parser::Text| -> Result<WalkResult<()>, String> {
        if t.as_str() == "two" {
            Err(String::from("found two"))
        } else {
            Ok(WalkResult::Continue)
        }
    }));
    assert_eq!(r.err(), Some(String::from("found two")));
}

#[test]
fn cursor_walks_depth_first() {
    let dom = sample();
    let tree = dom.children.as_slice();
    let mut c = WalkCursor::new(tree);
    let mut names = Vec::new();
    while let Some(n) = c.current(tree) {
        names.push(n.to_html());
        let descend = !matches!(n, Node::Element(e) if e.name == "div");
        c.advance(tree, descend);
    }
    assert!(c.is_done());
    assert_eq!(names, vec!["<div><p>one</p><p>two<b>three</b></p></div>", "<span>four</span>", "four"]);
}

#[test]
fn cursor_changes_nodes_in_place() {
    let mut dom = sample();
    let mut c = WalkCursor::new(dom.children.as_slice());
    while c.current(dom.children.as_slice()).is_some() {
        let n = c.current_mut(dom.children.as_mut_slice());
        if let Node::Text(t) = n {
            *t = html_parser::Text::from(t.as_str().to_uppercase());
        }
        c.advance(dom.children.as_slice(), true);
    }
    assert_eq!(dom.to_html(), "<div><p>ONE</p><p>TWO<b>THREE</b></p></div><span>FOUR</span>");
}

#[test]
fn node_walk_includes_the_node_itself() {
    let dom = sample();
    let count = Cell::new(0);
    let _: Result<ControlFlow<(), ()>, Infallible> = dom.children[1].for_each(|_n: &Node| {
        count.set(count.get() + 1);
        WalkResult::<()>::Continue
    });
    assert_eq!(count.get(), 2);
}

#[test]
fn no_err_unwraps_an_infallible_walk() {
    let dom = sample();
    let r: Result<ControlFlow<u32, ()>, Infallible> = dom.for_each(element(|e: &html_parser::Element| {
        if e.name == "span" {
            WalkResult::Break(7u32)
        } else {
            WalkResult::Continue
        }
    }));
    assert_eq!(r.no_err(), ControlFlow::Break(7));
    let done: Result<ControlFlow<(), ()>, Infallible> = dom.for_each(|_n: &Node| WalkResult::<()>::Continue);
    assert_eq!(done.no_err(), ControlFlow::Continue(()));
    done.no_err().no_brk();
}

#[test]
fn cursor_and_for_each_visit_alike() {
    let dom = sample();
    let answer = |n: &Node| -> WalkResult<()> {
        match n {
            Node::Element(e) if e.name == "p" && e.children.len() > 1 => WalkResult::Skip,
            Node::Text(t) if t.as_str() == "four" => WalkResult::Break(()),
            _ => WalkResult::Continue,
        }
    };
    let seen = std::cell::RefCell::new(Vec::new());
    let r: Result<ControlFlow<(), ()>, Infallible> = dom.for_each(|n: &Node| {
        seen.borrow_mut().push(n.to_html());
        answer(n)
    });
    assert!(matches!(r, Ok(ControlFlow::Break(()))));
    let tree = dom.children.as_slice();
    let mut c = WalkCursor::new(tree);
    let mut by_cursor = Vec::new();
    while let Some(n) = c.current(tree) {
        by_cursor.push(n.to_html());
        match answer(n) {
            WalkResult::Continue => c.advance(tree, true),
            WalkResult::Skip => c.advance(tree, false),
            WalkResult::Break(()) => break,
        }
    }
    assert_eq!(by_cursor, seen.into_inner());
    assert_eq!(by_cursor.len(), 6);
}

#[test]
fn skip_at_text_goes_through_every_node() {
    let dom = sample();
    let count = Cell::new(0);
    let r: Result<ControlFlow<(), ()>, Infallible> = dom.for_each(|n: &Node| {
        count.set(count.get() + 1);
        match n {
            Node::Element(_) => WalkResult::<()>::Continue,
            _ => WalkResult::Skip,
        }
    });
    assert!(matches!(r, Ok(ControlFlow::Continue(()))));
    assert_eq!(count.get(), 9);
}

#[test]
fn cursor_follows_answers() {
    let dom = sample();
    let tree = dom.children.as_slice();
    let mut c = WalkCursor::new(tree);
    assert_eq!(c.follow(tree, WalkResult::<u8>::Skip), None);
    assert_eq!(c.current(tree).unwrap().to_html(), "<span>four</span>");
    assert_eq!(c.follow(tree, WalkResult::Break(5u8)), Some(5));
    assert_eq!(c.current(tree).unwrap().to_html(), "<span>four</span>");
    assert_eq!(c.follow(tree, WalkResult::<u8>::Continue), None);
    assert_eq!(c.current(tree).unwrap().to_html(), "four");
    assert_eq!(c.follow(tree, WalkResult::<u8>::Continue), None);
    assert!(c.is_done());
}
