use qframe::html_page;

#[test]
fn the_page_holds_every_fragment_in_order_after_its_head() {
    let page = html_page(&["<figure>a</figure>".to_owned(), "<figure>b</figure>".to_owned()]);
    assert!(page.starts_with("<!doctype html><meta charset=\"utf-8\"><title>Quvyta review</title><style>"));
    assert!(page.ends_with("</style><figure>a</figure><figure>b</figure>"));
    assert!(html_page(&[]).ends_with("</style>"));
}
