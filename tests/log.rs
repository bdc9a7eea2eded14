use std::sync::{Arc, Mutex};

use belch_proxy::log::{App, HttpLog};

fn rec(i: usize) -> HttpLog {
    HttpLog { url: format!("GET /{} [Host: h]", i), request: format!("req {}", i), response: String::new() }
}

#[test]
fn new_store_is_empty() {
    let app = App::new();
    assert_eq!(app.len(), 0);
    assert_eq!(app.selected(), 0);
    assert!(app.selected_log().is_none());
    assert!(app.get(0).is_none());
}

#[test]
fn append_keeps_order_and_positions() {
    let mut app = App::new();
    for i in 0..3 {
        app.append(rec(i));
    }
    assert_eq!(app.len(), 3);
    for i in 0..3 {
        assert_eq!(app.get(i).unwrap().url, format!("GET /{} [Host: h]", i));
    }
    assert!(app.get(3).is_none());
}

#[test]
fn cursor_is_clamped() {
    let mut app = App::new();
    app.next();
    app.previous();
    assert_eq!(app.selected(), 0);
    app.append(rec(0));
    app.append(rec(1));
    app.previous();
    assert_eq!(app.selected(), 0);
    app.next();
    assert_eq!(app.selected(), 1);
    app.next();
    assert_eq!(app.selected(), 1);
    assert_eq!(app.selected_log().unwrap().url, "GET /1 [Host: h]");
    app.append(rec(2));
    assert_eq!(app.selected(), 1);
    app.next();
    assert_eq!(app.selected(), 2);
    app.previous();
    app.previous();
    app.previous();
    assert_eq!(app.selected(), 0);
    assert_eq!(app.selected_log().unwrap().request, "req 0");
}

#[test]
fn shared_appends_in_any_order_are_all_kept() {
    let n = 32;
    let orders: Vec<Vec<usize>> = vec![
        (0..n).collect(),
        (0..n).rev().collect(),
        (0..n).map(|i| if i % 2 == 0 { i / 2 } else { n - 1 - i / 2 }).collect(),
    ];
    for order in orders {
        let app = Arc::new(Mutex::new(App::new()));
        let handles: Vec<Arc<Mutex<App>>> = (0..n).map(|_| Arc::clone(&app)).collect();
        for i in order {
            handles[i].lock().unwrap().append(rec(i));
        }
        let guard = app.lock().unwrap();
        assert_eq!(guard.len(), n);
        let mut seen: Vec<String> = (0..n).map(|i| guard.get(i).unwrap().request.clone()).collect();
        seen.sort();
        seen.dedup();
        assert_eq!(seen.len(), n);
        for i in 0..n {
            assert!(seen.contains(&format!("req {}", i)));
        }
    }
}
