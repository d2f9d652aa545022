//! Capture in the browser: where to connect to, and what to tell the user when it fails.
use vstd::prelude::*;

verus! {

/// The address of the stream on the server that the page came from.
pub fn socket_url(protocol: &str, host: &str) -> (url: String)
    ensures
        url@ == if protocol@ == "https:"@ {
            "wss://"@ + host@ + "/ws"@
        } else {
            "ws://"@ + host@ + "/ws"@
        },
{
    let mut url: String = if protocol.to_owned() == "https:".to_owned() {
        "wss://".to_owned()
    } else {
        "ws://".to_owned()
    };
    url.append(host);
    url.append("/ws");
    url
}

/// What capture cannot be started without.
pub enum Obstacle {
    /// The page has no window.
    NoWindow,
    /// The page was not reached safely, so that there is no microphone to ask for.
    Insecure,
    /// The stream could not be opened.
    Socket,
    /// The audio context could not be made.
    Context,
    /// The audio processor could not be made.
    Processor,
    /// The gain could not be made.
    Gain,
    /// There are no devices to ask for.
    Devices,
    /// The microphone could not be asked for.
    Microphone,
}

/// What the user is told about an obstacle, before the browser's own words.
pub open spec fn obstacle_text(obstacle: Obstacle) -> Seq<char> {
    match obstacle {
        Obstacle::NoWindow => "无法访问浏览器窗口"@,
        Obstacle::Insecure => "无法访问麦克风：请通过 HTTPS 访问（在前面加反向代理，如 Pingora/Cloudflare），或在本机用 http://localhost 打开。"@,
        Obstacle::Socket => "无法连接服务器："@,
        Obstacle::Context => "无法创建音频上下文："@,
        Obstacle::Processor => "无法创建音频处理器："@,
        Obstacle::Gain => "无法创建增益节点："@,
        Obstacle::Devices => "无法访问麦克风设备："@,
        Obstacle::Microphone => "无法启动麦克风："@,
    }
}

/// Whether the browser's own words are told too.
pub open spec fn has_cause(obstacle: Obstacle) -> bool {
    !(obstacle is NoWindow) && !(obstacle is Insecure)
}

/// What the user is told about an obstacle; `cause` are the browser's own words.
pub fn obstacle_message(obstacle: Obstacle, cause: &str) -> (message: String)
    ensures
        message@ == if has_cause(obstacle) {
            obstacle_text(obstacle) + cause@
        } else {
            obstacle_text(obstacle)
        },
{
    let mut message: String = match obstacle {
        Obstacle::NoWindow => {
            return "无法访问浏览器窗口".to_owned();
        },
        Obstacle::Insecure => {
            return "无法访问麦克风：请通过 HTTPS 访问（在前面加反向代理，如 Pingora/Cloudflare），或在本机用 http://localhost 打开。".to_owned();
        },
        Obstacle::Socket => "无法连接服务器：".to_owned(),
        Obstacle::Context => "无法创建音频上下文：".to_owned(),
        Obstacle::Processor => "无法创建音频处理器：".to_owned(),
        Obstacle::Gain => "无法创建增益节点：".to_owned(),
        Obstacle::Devices => "无法访问麦克风设备：".to_owned(),
        Obstacle::Microphone => "无法启动麦克风：".to_owned(),
    };
    message.append(cause);
    message
}

/// What came of asking for the microphone.
pub enum Microphone {
    /// It was granted and connected.
    Connected,
    /// It was granted but could not be connected.
    Unconnected,
    /// Something else was granted.
    Unexpected,
    /// It was refused, or there is none.
    Refused,
}

/// What the user is told about the microphone, nothing where it is connected; `cause` are the
/// browser's own words.
pub fn microphone_message(microphone: Microphone, cause: &str) -> (message: Option<String>)
    ensures
        match microphone {
            Microphone::Connected => message is None,
            Microphone::Unconnected => message matches Some(m) && m@ == "无法连接麦克风："@
                + cause@,
            Microphone::Unexpected => message matches Some(m) && m@
                == "麦克风返回了非预期的数据"@,
            Microphone::Refused => message matches Some(m) && m@
                == "麦克风被拒绝或不可用：请允许麦克风权限后重试。("@ + cause@ + ")"@,
        },
{
    match microphone {
        Microphone::Connected => None,
        Microphone::Unconnected => {
            let mut message: String = "无法连接麦克风：".to_owned();
            message.append(cause);
            Some(message)
        },
        Microphone::Unexpected => Some("麦克风返回了非预期的数据".to_owned()),
        Microphone::Refused => {
            let mut message: String = "麦克风被拒绝或不可用：请允许麦克风权限后重试。(".to_owned();
            message.append(cause);
            message.append(")");
            Some(message)
        },
    }
}

/// The browser's own words are told of every obstacle but a page without a window and one that
/// was not reached safely, which are told in full.
pub proof fn causes_are_told_where_there_are_any(obstacle: Obstacle)
    ensures
        has_cause(obstacle) <==> obstacle is Socket || obstacle is Context || obstacle is Processor
            || obstacle is Gain || obstacle is Devices || obstacle is Microphone,
        obstacle is NoWindow ==> obstacle_text(obstacle) == "无法访问浏览器窗口"@,
        obstacle is Insecure ==> obstacle_text(obstacle)
            == "无法访问麦克风：请通过 HTTPS 访问（在前面加反向代理，如 Pingora/Cloudflare），或在本机用 http://localhost 打开。"@,
        obstacle is Socket ==> obstacle_text(obstacle) == "无法连接服务器："@,
        obstacle is Context ==> obstacle_text(obstacle) == "无法创建音频上下文："@,
        obstacle is Processor ==> obstacle_text(obstacle) == "无法创建音频处理器："@,
        obstacle is Gain ==> obstacle_text(obstacle) == "无法创建增益节点："@,
        obstacle is Devices ==> obstacle_text(obstacle) == "无法访问麦克风设备："@,
        obstacle is Microphone ==> obstacle_text(obstacle) == "无法启动麦克风："@,
{
}

} // verus!
