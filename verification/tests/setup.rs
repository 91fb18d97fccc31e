use porthole::cli::{Cli, Command};
use porthole::service::{client_args, server_args};
use porthole::setup::{needs_setup, prompt_answer, read_public_address, wants_dashboard};

#[test]
fn setup_runs_only_when_nothing_is_configured() {
    assert!(needs_setup(false, false, false));
    assert!(!needs_setup(true, false, false));
    assert!(!needs_setup(false, true, false));
    assert!(!needs_setup(false, false, true));
}

#[test]
fn dashboards_are_for_clients_on_terminals() {
    let client = Cli {
        command: Command::Client(client_args("c".into())),
        verbose: 0,
        no_banner: false,
    };
    assert!(wants_dashboard(&client, true));
    assert!(!wants_dashboard(&client, false));
    let plain = Cli { no_banner: true, ..client };
    assert!(!wants_dashboard(&plain, true));
    let server = Cli {
        command: Command::Server(server_args("s".into())),
        verbose: 0,
        no_banner: false,
    };
    assert!(!wants_dashboard(&server, true));
}

#[test]
fn public_addresses_are_read_from_the_response_body() {
    let response = "HTTP/1.1 200 OK\r\nContent-Type: text/plain\r\n\r\n 203.0.113.9\n";
    assert_eq!(read_public_address(response), Some("203.0.113.9".to_string()));
    assert_eq!(
        read_public_address("head\r\n\r\nbody\r\n\r\nmore"),
        Some("body".to_string())
    );
    assert_eq!(read_public_address("no blank line"), None);
    assert_eq!(read_public_address("head\r\n\r\n  \r\n"), None);
    let long = format!("head\r\n\r\n{}", "1".repeat(64));
    assert_eq!(read_public_address(&long), None);
    let fits = format!("head\r\n\r\n{}", "1".repeat(63));
    assert_eq!(read_public_address(&fits), Some("1".repeat(63)));
    // Lengths count bytes.
    let wide = format!("head\r\n\r\n{}", "é".repeat(32));
    assert_eq!(read_public_address(&wide), None);
}

#[test]
fn prompts_fall_back_to_their_default() {
    assert_eq!(prompt_answer("  relay.example \n", "1.2.3.4"), "relay.example");
    assert_eq!(prompt_answer(" \n", "1.2.3.4"), "1.2.3.4");
}
