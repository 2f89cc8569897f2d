use pirs::claw::gateway::{
    binds_publicly, deliver_outbound, inbound, read_signal, refusal_text, reply_text,
    require_allowlist, run_gateway, run_signal_cli, run_telegram, run_webhook_listener,
    send_discord, send_slack, send_whatsapp, signal_account, signal_line, signal_receive_args,
    slack_accepted, telegram_update, utf8_chunks, webhook_bind_host, webhook_port,
    webhook_socket_addr, ChannelKind, DeliverTarget, Delivery, TelegramBot, TgAction, TgMessage,
    TgPoll, TgUpdate, BIND_ENV, PUBLIC_BIND_ENV,
};
use pirs::claw::pairing::PairingAllowlist;
use pirs::claw::webhook::{
    can_verify, can_work_on, extract_discord, extract_slack, extract_whatsapp, handled_answer,
    is_url_decodable, urlencoding_decode, webhook_request, webhook_step,
    whatsapp_verify_challenge, Webhook, WebhookStep,
};
use pirs::environ::Environ;
use pirs::json::parse_json;

fn env(vars: &[(&str, &str)]) -> Environ {
    let mut e = Environ::new();
    for (k, v) in vars {
        e.set_var(k, v);
    }
    e
}

fn allow(peers: &str) -> PairingAllowlist {
    PairingAllowlist::open(Some(peers), &env(&[]))
}

#[test]
fn utf8_chunks_do_not_split_multibyte() {
    let s = "á".repeat(10);
    let parts = utf8_chunks(&s, 3);
    assert!(parts.iter().all(|p| p.chars().count() <= 3));
    assert_eq!(parts.join(""), s);
}

#[test]
fn chunks_are_full_but_for_the_last() {
    assert_eq!(utf8_chunks("abcdefg", 3), vec!["abc", "def", "g"]);
    assert_eq!(utf8_chunks("", 3), utf8_chunks("", 5));
}

#[test]
fn deliver_outbound_cli_is_required_after_captured_chat() {
    match deliver_outbound(&DeliverTarget::Cli, "tick-cli-reply-marker", &env(&[])) {
        Ok(Delivery::Print(t)) => assert_eq!(t, "tick-cli-reply-marker"),
        other => panic!("{other:?}"),
    }
}

#[test]
fn webhook_bind_defaults_to_localhost() {
    let e = env(&[]);
    assert_eq!(webhook_bind_host(&e), "127.0.0.1");
    let (addr, fallback) = webhook_socket_addr(8741, &e);
    assert_eq!(addr, "127.0.0.1:8741");
    assert_eq!(fallback, "127.0.0.1:8741");
}

#[test]
fn webhook_bind_public_opt_in() {
    assert_eq!(webhook_bind_host(&env(&[(PUBLIC_BIND_ENV, "1")])), "0.0.0.0");
    assert_eq!(webhook_bind_host(&env(&[(BIND_ENV, "0.0.0.0")])), "0.0.0.0");
}

#[test]
fn extract_discord_simple() {
    let v = parse_json("{\"author_id\": \"99\", \"content\": \"hello\"}").unwrap();
    assert_eq!(extract_discord(&v), Some(("99".into(), "hello".into())));
}

#[test]
fn extract_slack_ignores_bots() {
    let v = parse_json("{\"event\": {\"bot_id\": \"B1\", \"user\": \"U1\", \"text\": \"x\"}}")
        .unwrap();
    assert!(extract_slack(&v).is_none());
    let v = parse_json("{\"event\": {\"user\": \"U1\", \"text\": \"hi\"}}").unwrap();
    assert_eq!(extract_slack(&v), Some(("U1".into(), "hi".into())));
}

#[test]
fn extract_whatsapp_meta_shape() {
    let v = parse_json(
        "{\"entry\": [{\"changes\": [{\"value\": {\"messages\": [{\"from\": \"15551234567\", \"text\": {\"body\": \"yo\"}}]}}]}]}",
    )
    .unwrap();
    assert_eq!(extract_whatsapp(&v), Some(("15551234567".into(), "yo".into())));
}

#[test]
fn whatsapp_verify_token_gate() {
    let e = env(&[("WHATSAPP_VERIFY_TOKEN", "secret-token")]);
    let ok = whatsapp_verify_challenge(
        "/?hub.mode=subscribe&hub.verify_token=secret-token&hub.challenge=abc123",
        &e,
    );
    assert_eq!(ok.as_deref(), Some("abc123"));
    let bad = whatsapp_verify_challenge(
        "/?hub.mode=subscribe&hub.verify_token=wrong&hub.challenge=abc123",
        &e,
    );
    assert!(bad.is_none());
    let unset = whatsapp_verify_challenge(
        "/?hub.mode=subscribe&hub.verify_token=secret-token&hub.challenge=abc123",
        &env(&[]),
    );
    assert!(unset.is_none());
}

#[test]
fn queries_are_decoded() {
    assert_eq!(urlencoding_decode("a%20b+c"), "a b c");
    assert_eq!(urlencoding_decode("100%"), "100%");
    assert_eq!(urlencoding_decode("%41%zz"), "A%zz");
    assert!(is_url_decodable("plain"));
    assert!(can_verify("/?hub.mode=subscribe"));
}

fn respond(step: WebhookStep) -> String {
    match step {
        WebhookStep::Respond(t) => t,
        WebhookStep::Handle { .. } => panic!("must not be handled"),
    }
}

#[test]
fn a_webhook_request_is_answered_or_handled() {
    let al = allow("99\n");
    let e = env(&[]);
    let ask = |raw: &str| webhook_step(Webhook::Discord, raw, &al, &e);
    assert!(respond(ask("GET / HTTP/1.1\r\n\r\n")).starts_with("HTTP/1.1 403"));
    assert!(respond(ask("POST / HTTP/1.1\r\n\r\nnot json")).starts_with("HTTP/1.1 400"));
    assert!(respond(ask("POST / HTTP/1.1\r\n\r\n{}")).starts_with("HTTP/1.1 204"));
    assert_eq!(
        respond(ask("POST / HTTP/1.1\r\n\r\n{\"challenge\": \"äb\"}")),
        "HTTP/1.1 200 OK\r\nContent-Type: text/plain\r\nContent-Length: 3\r\n\r\näb"
    );
    assert!(respond(ask(
        "POST / HTTP/1.1\r\n\r\n{\"author_id\": \"7\", \"content\": \"hi\"}"
    ))
    .starts_with("HTTP/1.1 403"));
    let raw = "POST / HTTP/1.1\r\nHost: x\r\n\r\n{\"author_id\": 99, \"content\": \"hi\"}\0\0";
    assert!(can_work_on(raw));
    match webhook_request(Webhook::Discord, raw.as_bytes(), &al, &e) {
        Some(WebhookStep::Handle { peer, text }) => {
            assert_eq!((peer.as_str(), text.as_str()), ("99", "hi"))
        }
        other => panic!("{other:?}"),
    }
    assert_eq!(handled_answer(), "HTTP/1.1 200 OK\r\nContent-Length: 2\r\n\r\nOK");
}

#[test]
fn a_listener_needs_somebody_who_may_speak() {
    let e = env(&[("PIRS_CLAW_SLACK_PORT", "9000"), (BIND_ENV, " :: ")]);
    let plan = run_webhook_listener(Webhook::Slack, &allow("1\n"), &e).unwrap();
    assert_eq!(plan.addr, ":::9000");
    assert_eq!(plan.fallback, "127.0.0.1:9000");
    assert!(plan.public);
    let plan = run_webhook_listener(Webhook::Whatsapp, &allow("1\n"), &env(&[])).unwrap();
    assert_eq!(plan.addr, "127.0.0.1:8743");
    assert!(!plan.public);
    let err = run_webhook_listener(Webhook::Discord, &allow(""), &e).unwrap_err();
    assert!(err.starts_with("discord: pairing allowlist is empty (fail closed)."));
    assert!(require_allowlist(&allow(""), "signal").unwrap_err().starts_with("signal: "));
    assert!(require_allowlist(&allow("1"), "signal").is_ok());
    assert_eq!(webhook_port(&env(&[("P", "70000")]), "P", 8), 8);
    assert_eq!(webhook_port(&env(&[("P", "+80")]), "P", 8), 80);
    assert!(binds_publicly("0.0.0.0") && !binds_publicly("127.0.0.1"));
}

#[test]
fn channels_are_known_by_name() {
    assert_eq!(run_gateway("slack"), Ok(ChannelKind::Slack));
    assert_eq!(
        run_gateway("irc"),
        Err("unknown channel \"irc\". Supported: telegram, discord, slack, whatsapp, signal".into())
    );
    let m = inbound(ChannelKind::Signal, "p", "t", 5);
    assert_eq!(
        (m.channel_id.as_str(), m.peer_id.as_str(), m.text.as_str(), m.ts),
        ("signal", "p", "t", 5)
    );
    assert_eq!(reply_text(Ok("r".into())), "r");
    assert_eq!(reply_text(Err("e".into())), "error: e");
}

fn update(id: i64, chat: i64, text: Option<&str>, from: Option<i64>) -> TgUpdate {
    TgUpdate {
        update_id: id,
        message: Some(TgMessage {
            chat_id: chat,
            text: text.map(|t| t.to_string()),
            from_id: from,
        }),
    }
}

#[test]
fn telegram_hears_only_who_may_speak() {
    let al = allow("42\n");
    let mut offset = 0;
    let mut round = run_telegram(
        &TgPoll::Answered {
            ok: true,
            updates: vec![
                update(5, 42, Some("hi"), None),
                update(6, -7, Some("hey"), Some(42)),
                update(7, -7, Some("no"), Some(8)),
                update(8, 42, None, None),
                TgUpdate { update_id: 9, message: None },
            ],
        },
        &mut offset,
        &al,
    );
    assert_eq!(offset, 10);
    assert_eq!((round.wait_secs, round.note.is_none()), (0, true));
    assert_eq!(round.actions.len(), 5);
    match round.actions.remove(1) {
        TgAction::Handle { peer, text } => assert_eq!((peer.as_str(), text.as_str()), ("-7", "hey")),
        other => panic!("{other:?}"),
    }
    match round.actions.remove(1) {
        TgAction::Refuse { peer, user } => assert_eq!((peer.as_str(), user.as_str()), ("-7", "8")),
        other => panic!("{other:?}"),
    }
    assert!(matches!(round.actions[0], TgAction::Handle { .. }));
    assert!(matches!(round.actions[1], TgAction::Skip));
    assert!(matches!(round.actions[2], TgAction::Skip));
    assert!(refusal_text().contains("not on the pairing allowlist"));
    assert!(matches!(
        telegram_update(&mut offset, &update(20, 42, Some("x"), None), &al),
        TgAction::Handle { .. }
    ));
    assert_eq!(offset, 21);
}

#[test]
fn telegram_waits_where_a_fetch_fails() {
    let al = allow("42\n");
    let mut offset = 3;
    let r = run_telegram(&TgPoll::Unreachable { error: "dns".into() }, &mut offset, &al);
    assert_eq!(r.wait_secs, 3);
    assert_eq!(r.note.as_deref(), Some("[telegram] getUpdates error: dns; retry in 3s"));
    let r = run_telegram(&TgPoll::Answered { ok: false, updates: vec![] }, &mut offset, &al);
    assert_eq!(r.wait_secs, 2);
    assert_eq!(offset, 3);
}

#[test]
fn telegram_sends_in_pieces() {
    assert!(TelegramBot::from_env(&env(&[])).is_err());
    let bot = match TelegramBot::from_env(&env(&[("PIRS_TELEGRAM_BOT_TOKEN", "T")])) {
        Ok(bot) => bot,
        Err(e) => panic!("{e}"),
    };
    assert_eq!(bot.api("getMe"), "https://api.telegram.org/botT/getMe");
    assert_eq!(
        bot.updates_url(7),
        "https://api.telegram.org/botT/getUpdates?timeout=25&offset=7"
    );
    let posts = bot.send("42", &"x".repeat(3501));
    assert_eq!(posts.len(), 2);
    assert_eq!(posts[1].url, "https://api.telegram.org/botT/sendMessage");
    assert_eq!(posts[1].body.text_at("text"), Some("x"));
    assert_eq!(posts[1].body.text_at("chat_id"), Some("42"));
}

#[test]
fn signal_messages_are_read_line_by_line() {
    let al = allow("+1555\n");
    let good = "{\"envelope\":{\"source\":\"+1555\",\"dataMessage\":{\"message\":\"hi\"}}}";
    let number = "{\"sourceNumber\":\"+1555\",\"dataMessage\":{\"message\":\"yo\"}}";
    let other = "{\"envelope\":{\"source\":\"+1666\",\"dataMessage\":{\"message\":\"hi\"}}}";
    let quiet = "{\"envelope\":{\"source\":\"+1555\",\"dataMessage\":{\"message\":\"\"}}}";
    let out = format!("{good}\nnot json\n{other}\n{quiet}\n{number}\n");
    let ms = run_signal_cli(&out, &al, 11);
    assert_eq!(ms.len(), 2);
    assert_eq!((ms[0].text.as_str(), ms[1].text.as_str()), ("hi", "yo"));
    assert!(ms.iter().all(|m| m.channel_id == "signal" && m.ts == 11 && m.peer_id == "+1555"));
    assert_eq!(signal_line(good, &al), Some(("+1555".into(), "hi".into())));
    assert_eq!(read_signal(&parse_json(other).unwrap(), &al), None);
    assert!(signal_account(&env(&[]), "set it").is_err());
    assert_eq!(signal_account(&env(&[("SIGNAL_ACCOUNT", "+1")]), "set it"), Ok("+1".into()));
    assert_eq!(signal_receive_args("+1"), vec!["-a", "+1", "receive", "-t", "10", "--json"]);
}

#[test]
fn replies_are_posted() {
    let e = env(&[("DISCORD_BOT_TOKEN", "D"), ("SLACK_BOT_TOKEN", "S")]);
    let p = send_discord(&e, "channel:12", "hi").unwrap();
    assert_eq!(p.url, "https://discord.com/api/v10/channels/12/messages");
    assert_eq!(p.authorization.as_deref(), Some("Bot D"));
    assert_eq!(p.body.text_at("content"), Some("hi"));
    let p = send_slack(&e, "C1", "hi").unwrap();
    assert_eq!(p.body.text_at("channel"), Some("C1"));
    assert!(slack_accepted(&parse_json("{\"ok\": true}").unwrap()));
    assert!(!slack_accepted(&parse_json("{\"ok\": false}").unwrap()));
    assert!(send_discord(&env(&[]), "1", "x").is_err());
    assert!(send_slack(&env(&[]), "1", "x").is_err());
    assert!(send_whatsapp(&env(&[]), "1", "x").is_err());
    match deliver_outbound(&DeliverTarget::Discord { peer: "1".into() }, "x", &e) {
        Ok(Delivery::Discord(_)) => {}
        other => panic!("{other:?}"),
    }
    assert!(deliver_outbound(&DeliverTarget::Signal { peer: "1".into() }, "x", &e).is_err());
    let e = env(&[("SIGNAL_ACCOUNT", "+1")]);
    match deliver_outbound(&DeliverTarget::Signal { peer: "+2".into() }, "x", &e) {
        Ok(Delivery::SignalCli(args)) => {
            assert_eq!(args, vec!["-a", "+1", "send", "-m", "x", "+2"])
        }
        other => panic!("{other:?}"),
    }
}
