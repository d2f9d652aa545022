use speech2text::app::{Page, Press, SttMsg, KEEP};

fn last(text: &str) -> SttMsg {
    SttMsg::Final { text: text.to_string() }
}

fn last_line(i: usize) -> SttMsg {
    last(&format!("{i}"))
}

fn shown(page: &Page) -> Vec<String> {
    page.lines().into_iter().map(|l| l.0).collect()
}

#[test]
fn the_page_begins_stopped() {
    let page = Page::new();
    assert!(!page.is_running());
    assert_eq!(page.button_label(), "开始");
    assert_eq!(page.preview(), "已停止");
    assert_eq!(page.font_size(), "48px");
    assert_eq!(page.font_value(), "48");
    assert_eq!(page.status(), "");
    assert_eq!(page.waiting(), None);
    assert!(page.lines().is_empty());
}

#[test]
fn the_button_starts_and_stops() {
    let mut page = Page::new();
    assert_eq!(page.toggle(), Press::Start);
    assert!(!page.is_running());
    page.started();
    assert!(page.is_running());
    assert_eq!(page.button_label(), "停止");
    assert_eq!(page.preview(), "聆听中…");
    page.receive(SttMsg::Partial { text: "你".to_string() });
    assert_eq!(page.preview(), "你");
    assert_eq!(page.toggle(), Press::Stop);
    assert!(!page.is_running());
    assert_eq!(page.preview(), "已停止");
    page.toggle();
    page.started();
    assert_eq!(page.preview(), "聆听中…");
}

#[test]
fn failures_are_shown_until_the_next_start() {
    let mut page = Page::new();
    page.toggle();
    page.not_started("no window".to_string());
    assert_eq!(page.status(), "no window");
    assert!(!page.is_running());
    page.toggle();
    assert_eq!(page.status(), "");
    page.started();
    page.failed("refused".to_string());
    assert_eq!(page.status(), "refused");
    assert!(!page.is_running());
}

#[test]
fn completed_lines_wait_and_come_into_view_in_order() {
    let mut page = Page::new();
    page.receive(SttMsg::Partial { text: "一".to_string() });
    page.receive(last("一二"));
    page.receive(last("三"));
    page.receive(SttMsg::Status { state: "x".to_string() });
    assert_eq!(page.waiting(), Some("⏳ 2 等待中".to_string()));
    assert!(!page.tick(false));
    assert!(shown(&page).is_empty());
    assert!(page.tick(true));
    assert_eq!(page.lines(), vec![("一二".to_string(), true)]);
    assert!(page.tick(true));
    assert_eq!(page.lines(), vec![("一二".to_string(), false), ("三".to_string(), true)]);
    assert_eq!(page.waiting(), None);
    assert!(!page.tick(true));
    assert_eq!(shown(&page).len(), 2);
}

#[test]
fn lines_come_into_view_a_dwell_time_apart() {
    let dwell: f64 = 4.0;
    let early = |now: f64, last: f64| now - last < dwell * 1000.0;
    let mut page = Page::new();
    let mut last: f64 = 100.0;
    let mut times: Vec<f64> = Vec::new();
    assert!(!page.tick_at(&mut last, 90_000.0, &early));
    assert_eq!(last, 100.0);
    for i in 0..4 {
        page.receive(last_line(i));
    }
    let mut now: f64 = 100.0;
    while now < 30_000.0 {
        let before = shown(&page).len();
        if page.tick_at(&mut last, now, &early) {
            assert_eq!(shown(&page).len(), before + 1);
            assert_eq!(last, now);
            times.push(now);
        } else {
            assert_eq!(shown(&page).len(), before);
        }
        now += 150.0;
    }
    assert_eq!(times, vec![4_150.0, 8_200.0, 12_250.0, 16_300.0]);
    assert_eq!(shown(&page), vec!["0", "1", "2", "3"]);
}

#[test]
fn a_completed_line_clears_the_one_in_progress() {
    let mut page = Page::new();
    page.started();
    page.receive(SttMsg::Partial { text: "a".to_string() });
    page.receive(last("ab"));
    assert_eq!(page.preview(), "聆听中…");
}

#[test]
fn only_the_last_lines_stay_in_view() {
    let mut page = Page::new();
    for i in 0..12 {
        page.receive(last(&format!("{i}")));
    }
    assert_eq!(page.waiting(), Some("⏳ 12 等待中".to_string()));
    for _ in 0..10 {
        assert!(page.tick(true));
    }
    assert_eq!(shown(&page), vec!["4", "5", "6", "7", "8", "9"]);
    assert_eq!(shown(&page).len(), KEEP);
    assert_eq!(page.waiting(), Some("⏳ 2 等待中".to_string()));
}

#[test]
fn the_size_of_letters_is_a_number() {
    let mut page = Page::new();
    page.set_font("96");
    assert_eq!(page.font_size(), "96px");
    for bad in ["", "big", "-2", "4294967296", "12.5"] {
        page.set_font(bad);
        assert_eq!(page.font_size(), "96px");
    }
    page.set_font("4294967295");
    assert_eq!(page.font_value(), "4294967295");
}
