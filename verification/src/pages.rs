//! The fixed texts of the server's answers, and the pages built from them.

use vstd::prelude::*;
use vstd::string::StringSliceAdditionalSpecFns;
use crate::bytes::decimal;

verus! {

/// The server's name, as announced when it starts listening.
pub const SERVER_NAME: &'static str = "Zhtta Version 0.5";
/// The address the server listens on unless told otherwise.
pub const IP: &'static str = "127.0.0.1";
/// The port the server listens on unless told otherwise.
pub const PORT: u16 = 4414;
/// The directory the server serves unless told otherwise.
pub const WWW_DIR: &'static str = "./www";

/// The head of every successful answer.
pub const HTTP_OK: &'static str = "HTTP/1.1 200 OK\r\nContent-Type: text/html; charset=UTF-8\r\n\r\n";
/// The head of the answer for a missing page.
pub const HTTP_BAD: &'static str = "HTTP/1.1 404 Not Found\r\n\r\n";

/// The start of the counter page: its title and style.
pub const COUNTER_STYLE: &'static str = "<doctype !html><html><head><title>Hello, Rust!</title>\n             <style>body { background-color: #884414; color: #FFEEAA}\n                    h1 { font-size:2cm; text-align: center; color: black; text-shadow: 0 0 4mm red }\n                    h2 { font-size:2cm; text-align: center; color: black; text-shadow: 0 0 4mm green }\n             </style></head>\n             <body>";

/// The counter page's greeting, up to the count.
pub const COUNTER_GREETING: &'static str = "<h1>Greetings, Krusty!</h1>\n                     <h2>Visitor count: ";
/// The counter page's end, after the count.
pub const COUNTER_END: &'static str = "</h2></body></html>\r\n";

/// The text before the path on the error page.
pub const CANNOT_OPEN: &'static str = "Cannot open: ";

/// The error page for `path`.
pub open spec fn error_page(path: Seq<u8>) -> Seq<u8> {
    HTTP_BAD.spec_bytes() + CANNOT_OPEN.spec_bytes() + path
}

/// The counter page showing `count` visitors.
pub open spec fn counter_page(count: nat) -> Seq<u8> {
    HTTP_OK.spec_bytes() + COUNTER_STYLE.spec_bytes() + COUNTER_GREETING.spec_bytes() + decimal(
        count,
    ) + COUNTER_END.spec_bytes()
}

} // verus!
