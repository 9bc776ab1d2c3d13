use ppgw::addr_server::{carries_addr, new_message_my, AddrServer, PUT_ME, PUT_OTH};
use ppgw::app::{command_msgtype, create_commnand_handler, CommandKind};
use ppgw::bichannel::BiChannel;
use ppgw::clock::elapsed_over;
use ppgw::connection::TrySendResult;
use ppgw::message::{Message, ADDRMESSAGE, SENDMESSAGE, SHOWMESSAGE};
use ppgw::node::{next_poll, start_send_idle, SPIN_ROUNDS};
use ppgw::node_shell::{read_shell_line, split_words, ShellLine};
use ppgw::stats::Stats;
use ppgw::utility::buffer::Buffer;

#[test]
fn man_message_carries_the_text() {
    let m = Message::create_man_message("hello world.");
    assert_eq!(m.mstype, SHOWMESSAGE);
    assert_eq!(m.subtype, SHOWMESSAGE);
    assert_eq!(m.msglen, 12);
    assert_eq!(m.msgdata, b"hello world.".to_vec());
}

#[test]
fn load_test_message_is_addressed() {
    let m = ppgw::test::client::create_man_message(0, 1, "hello world.");
    assert_eq!(m.sendid, 0);
    assert_eq!(m.recvid, 1);
    assert_eq!(m.msgdata, b"hello world.".to_vec());
}

#[test]
fn passed_on_message_is_shown() {
    let mut m = Message::create_man_message("x");
    m.mstype = SENDMESSAGE;
    m.set_show();
    assert_eq!(m.mstype, SHOWMESSAGE);
    assert_eq!(m.msgdata, vec![b'x']);
}

#[test]
fn commands_by_type() {
    assert!(matches!(create_commnand_handler(SHOWMESSAGE), Some(CommandKind::Show)));
    assert!(matches!(create_commnand_handler(SENDMESSAGE), Some(CommandKind::Send)));
    assert!(matches!(create_commnand_handler(ADDRMESSAGE), Some(CommandKind::Addr)));
    assert!(create_commnand_handler(99).is_none());
    assert_eq!(command_msgtype(&CommandKind::Send), SENDMESSAGE);
    assert_eq!(ppgw::show_message::ShowMessage::new().get_msgtype(), SHOWMESSAGE);
    assert_eq!(ppgw::app::show_message::ShowMessage::new().get_msgtype(), SHOWMESSAGE);
}

#[test]
fn address_book_tells_the_others() {
    let mut book: AddrServer<u32> = AddrServer::new();
    assert!(book.exec(1, 100).is_empty());
    assert_eq!(book.exec(2, 200), vec![100]);
    let mut peers = book.exec(3, 300);
    peers.sort();
    assert_eq!(peers, vec![100, 200]);
    let mut peers = book.exec(1, 111);
    peers.sort();
    assert_eq!(peers, vec![200, 300]);
    let m = book.new_message(0, 1, vec![1, 2, 3]);
    assert_eq!(m.subtype, PUT_OTH);
    assert_eq!(m.msglen, 3);
    assert!(carries_addr(PUT_OTH));
    assert!(!carries_addr(PUT_ME));
    let my = new_message_my(7);
    assert_eq!(my.sendid, 7);
    assert_eq!(my.mstype, ADDRMESSAGE);
    assert_eq!(my.subtype, PUT_ME);
}

#[test]
fn buffer_is_first_in_first_out() {
    let mut b: Buffer<u8> = Buffer::with_capacity(2);
    assert!(!b.is_full());
    b.push_front(1);
    b.push_front(2);
    assert!(b.is_full());
    assert_eq!(b.pop_back(), Some(1));
    assert_eq!(b.pop_back(), Some(2));
    assert_eq!(b.pop_back(), None);
}

#[test]
fn bichannel_ends_talk_to_each_other() {
    let (local, peer) = BiChannel::<u32>::channel();
    assert!(local.send(5).is_ok());
    assert_eq!(peer.recv().unwrap(), 5);
    assert!(peer.send(6).is_ok());
    assert_eq!(local.recv().unwrap(), 6);
}

#[test]
fn polling_spins_after_a_packet() {
    assert_eq!(next_poll(0, false, true, false), (SPIN_ROUNDS, false));
    assert_eq!(next_poll(3, false, false, false), (2, false));
    assert_eq!(next_poll(0, false, false, false), (0, true));
    assert_eq!(next_poll(0, true, false, false), (0, false));
    assert_eq!(next_poll(0, false, false, true), (0, false));
    assert!(start_send_idle(&vec![]));
    assert!(!start_send_idle(&vec![TrySendResult::Active]));
    assert!(start_send_idle(&vec![TrySendResult::Active, TrySendResult::Empty]));
}

#[test]
fn stats_rates() {
    let mut s = Stats::new();
    for _ in 0..12 {
        s.send_increase();
    }
    s.receive_increase();
    assert_eq!(s.show(5), (2, 0));
    assert_eq!(s.get_send_count(), 12);
    assert_eq!(s.get_receive_count(), 1);
    assert_eq!(s.send_count_for_rate, 0);
}

#[test]
fn elapsed_is_strict_and_monotone() {
    assert!(!elapsed_over(10, 10 + 1_000_000_000, 1));
    assert!(elapsed_over(10, 11 + 1_000_000_000, 1));
    assert!(!elapsed_over(10, 5, 0));
    assert!(elapsed_over(0, u64::MAX, 18_000_000_000));
    assert!(elapsed_over(1, u64::MAX, 18_446_744_073));
    assert!(!elapsed_over(0, 18_000_000_000_000_000_000, 18_000_000_000));
}

#[test]
fn a_packet_keeps_the_loop_awake_for_the_spin_rounds() {
    let (mut count, idle) = next_poll(0, false, true, false);
    assert!(!idle);
    for _ in 0..SPIN_ROUNDS {
        let (c, idle) = next_poll(count, false, false, false);
        assert!(!idle);
        count = c;
    }
    assert_eq!(count, 0);
    assert_eq!(next_poll(count, false, false, false), (0, true));
}

#[test]
fn shell_words_split_on_any_whitespace() {
    let ws = split_words("  sw \t127.0.0.1:8000\u{3000}hello\n");
    assert_eq!(ws, vec!["sw".to_string(), "127.0.0.1:8000".to_string(), "hello".to_string()]);
    assert!(split_words(" \t\r\n").is_empty());
    assert_eq!(split_words("é  ü"), vec!["é".to_string(), "ü".to_string()]);
}

#[test]
fn shell_lines_are_read_as_commands() {
    assert!(matches!(read_shell_line("  quit \n"), ShellLine::Quit));
    assert!(matches!(read_shell_line("   \n"), ShellLine::Blank));
    match read_shell_line("quit now") {
        ShellLine::Call { name, args } => {
            assert_eq!(name, "quit");
            assert_eq!(args, vec!["now".to_string()]);
        }
        _ => panic!("expected a command"),
    }
    match read_shell_line("sw 10.0.0.1:9 hi\n") {
        ShellLine::Call { name, args } => {
            assert_eq!(name, "sw");
            assert_eq!(args, vec!["10.0.0.1:9".to_string(), "hi".to_string()]);
        }
        _ => panic!("expected a command"),
    }
}

#[test]
fn bichannel_send_gives_the_value_back_when_the_other_end_is_gone() {
    let (local, peer) = BiChannel::<u32>::channel();
    drop(peer);
    assert_eq!(local.send(7), Err(7));
}
