use speech2text::capture::{microphone_message, obstacle_message, socket_url, Microphone, Obstacle};

#[test]
fn the_stream_is_as_safe_as_the_page() {
    assert_eq!(socket_url("https:", "example.org"), "wss://example.org/ws");
    assert_eq!(socket_url("http:", "localhost:3000"), "ws://localhost:3000/ws");
    assert_eq!(socket_url("", ""), "ws:///ws");
}

#[test]
fn obstacles_are_told() {
    assert_eq!(obstacle_message(Obstacle::NoWindow, "e"), "无法访问浏览器窗口");
    assert_eq!(
        obstacle_message(Obstacle::Insecure, "e"),
        "无法访问麦克风：请通过 HTTPS 访问（在前面加反向代理，如 Pingora/Cloudflare），或在本机用 http://localhost 打开。"
    );
    assert_eq!(obstacle_message(Obstacle::Socket, "e"), "无法连接服务器：e");
    assert_eq!(obstacle_message(Obstacle::Context, "e"), "无法创建音频上下文：e");
    assert_eq!(obstacle_message(Obstacle::Processor, "e"), "无法创建音频处理器：e");
    assert_eq!(obstacle_message(Obstacle::Gain, "e"), "无法创建增益节点：e");
    assert_eq!(obstacle_message(Obstacle::Devices, "e"), "无法访问麦克风设备：e");
    assert_eq!(obstacle_message(Obstacle::Microphone, "e"), "无法启动麦克风：e");
}

#[test]
fn microphone_failures_are_told() {
    assert_eq!(microphone_message(Microphone::Connected, "e"), None);
    assert_eq!(microphone_message(Microphone::Unconnected, "e").unwrap(), "无法连接麦克风：e");
    assert_eq!(microphone_message(Microphone::Unexpected, "e").unwrap(), "麦克风返回了非预期的数据");
    assert_eq!(
        microphone_message(Microphone::Refused, "e").unwrap(),
        "麦克风被拒绝或不可用：请允许麦克风权限后重试。(e)"
    );
}
