use on9log::web::{
    check_lines, choose_asset, control_result, mime_for_path, next_port, skipped_message, ApiError,
    AssetChoice, ControlReply,
};

#[test]
fn ports_go_up_while_in_use() {
    assert_eq!(next_port(9090, true), Some(9091));
    assert_eq!(next_port(9090, false), None);
    assert_eq!(next_port(u16::MAX, true), None);
}

#[test]
fn assets_are_chosen_by_path() {
    let known: Vec<String> = ["assets/app.js", "index.html"].iter().map(|s| s.to_string()).collect();
    assert_eq!(choose_asset("/", &known), AssetChoice::Asset(1));
    assert_eq!(choose_asset("", &known), AssetChoice::Asset(1));
    assert_eq!(choose_asset("//assets/app.js", &known), AssetChoice::Asset(0));
    assert_eq!(choose_asset("/settings/view", &known), AssetChoice::Asset(1));
    assert_eq!(choose_asset("/assets/missing.js", &known), AssetChoice::NotFound);
    assert_eq!(choose_asset("/v1.2/view", &known), AssetChoice::Asset(1));
    assert_eq!(choose_asset("/api/other", &known), AssetChoice::NotFound);
    assert_eq!(choose_asset("/ws/", &known), AssetChoice::NotFound);
    assert_eq!(choose_asset("/", &[]), AssetChoice::NotBundled);
    assert_eq!(choose_asset("/view", &[]), AssetChoice::NotFound);
}

fn error(status: u16, error: &str) -> Result<(), ApiError> {
    Err(ApiError {
        status,
        error: error.to_string(),
    })
}

#[test]
fn control_replies_have_statuses() {
    assert_eq!(control_result(ControlReply::Done), Ok(()));
    assert_eq!(
        control_result(ControlReply::NotRunning),
        error(503, "serial task is not running")
    );
    assert_eq!(
        control_result(ControlReply::Failed("port gone".to_string())),
        error(500, "port gone")
    );
    assert_eq!(
        control_result(ControlReply::Dropped),
        error(503, "serial task dropped control response")
    );
    assert_eq!(
        control_result(ControlReply::TimedOut),
        error(504, "timed out waiting for serial control")
    );
}

#[test]
fn line_requests_name_a_line() {
    assert_eq!(check_lines(None, None), error(400, "request must include dtr or rts"));
    assert_eq!(check_lines(Some(false), None), Ok(()));
    assert_eq!(check_lines(None, Some(true)), Ok(()));
}

#[test]
fn slow_clients_are_told() {
    assert_eq!(skipped_message(12), "--- websocket skipped 12 old log message(s) ---");
}

#[test]
fn media_types_follow_the_extension() {
    assert_eq!(mime_for_path("index.html"), "text/html; charset=utf-8");
    assert_eq!(mime_for_path("assets/app.min.js"), "text/javascript; charset=utf-8");
    assert_eq!(mime_for_path("assets/app.mjs"), "text/javascript; charset=utf-8");
    assert_eq!(mime_for_path("app.js.map"), "application/json; charset=utf-8");
    assert_eq!(mime_for_path("data.json"), "application/json; charset=utf-8");
    assert_eq!(mime_for_path("style.css"), "text/css; charset=utf-8");
    assert_eq!(mime_for_path("logo.svg"), "image/svg+xml");
    assert_eq!(mime_for_path("m.wasm"), "application/wasm");
    assert_eq!(mime_for_path("favicon.ico"), "image/x-icon");
    assert_eq!(mime_for_path("a.png"), "image/png");
    assert_eq!(mime_for_path("a.jpg"), "image/jpeg");
    assert_eq!(mime_for_path("a.jpeg"), "image/jpeg");
    assert_eq!(mime_for_path("a.webp"), "image/webp");
    assert_eq!(mime_for_path("f.woff"), "font/woff");
    assert_eq!(mime_for_path("f.woff2"), "font/woff2");
    let other = "application/octet-stream";
    assert_eq!(mime_for_path("LICENSE"), other);
    assert_eq!(mime_for_path("a.PNG"), other);
    assert_eq!(mime_for_path(".css"), other);
    assert_eq!(mime_for_path("v1.css/readme"), other);
    assert_eq!(mime_for_path("dir/.css"), other);
    assert_eq!(mime_for_path("a."), other);
    assert_eq!(mime_for_path(""), other);
}
