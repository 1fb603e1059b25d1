use cranker_expense::pagination::paginate_history;
use cranker_expense::pagination::SignaturePaginator;

fn history(n: usize) -> Vec<String> {
    let mut v = Vec::new();
    let mut i = 0;
    while i < n {
        v.push(format!("sig{:04}", i));
        i += 1;
    }
    v
}

#[test]
fn limit_within_history_returns_exactly_limit() {
    // H = 2500, L = 2100, provider pages of 1000: cursor chaining must
    // hand back exactly the newest 2100 entries, in order.
    let h = history(2500);
    let got = paginate_history(&h, 2100, 1000);
    assert_eq!(got.len(), 2100);
    for i in 0..2100 {
        assert_eq!(got[i], h[i]);
    }
}

#[test]
fn limit_on_page_boundary() {
    let h = history(3000);
    let got = paginate_history(&h, 2000, 1000);
    assert_eq!(got.len(), 2000);
    assert_eq!(got[0], "sig0000");
    assert_eq!(got[1999], "sig1999");
}

#[test]
fn short_history_terminates_with_everything() {
    // H < L: the walk returns all H entries and stops on the empty page.
    let h = history(7);
    let got = paginate_history(&h, 100, 3);
    assert_eq!(got.len(), 7);
    for i in 0..7 {
        assert_eq!(got[i], h[i]);
    }
}

#[test]
fn empty_history_returns_nothing() {
    let h = history(0);
    let got = paginate_history(&h, 50, 1000);
    assert_eq!(got.len(), 0);
}

#[test]
fn zero_limit_is_finished_before_the_first_request() {
    let p = SignaturePaginator::new(0);
    assert!(p.is_done());
    let h = history(10);
    let got = paginate_history(&h, 0, 1000);
    assert_eq!(got.len(), 0);
}

#[test]
fn cursor_is_last_collected_signature() {
    let mut p = SignaturePaginator::new(5);
    assert!(p.cursor().is_none());
    p.absorb_page(vec!["a".to_string(), "b".to_string()]);
    assert_eq!(p.cursor(), Some("b".to_string()));
    assert!(!p.is_done());
    p.absorb_page(vec!["c".to_string(), "d".to_string(), "e".to_string(), "f".to_string()]);
    assert!(p.is_done());
    assert_eq!(p.collected, vec!["a", "b", "c", "d", "e"]);
}

#[test]
fn empty_page_ends_the_walk() {
    let mut p = SignaturePaginator::new(5);
    p.absorb_page(vec!["a".to_string()]);
    p.absorb_page(Vec::new());
    assert!(p.is_done());
    assert_eq!(p.collected, vec!["a"]);
}
