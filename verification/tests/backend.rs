use exchange::clock::{expiry_after, expiry_from_now};
use exchange::handlers::deposit::{DepositOutcome, DepositRequest, deposit_check, deposit_reply};
use exchange::handlers::signin::{SigninOutcome, SigninRequest, signin_check, signin_reply};
use exchange::handlers::signup::{
    SignupOutcome, SignupRequest, claims_at, claims_from_now, hashed_password, signup_check, signup_reply,
};
use exchange::handlers::orders::{limit_fields_valid, market_fields_valid};
use exchange::handlers::withdraw::{WithdrawOutcome, withdraw_reply};
use exchange::handlers::ws::WsManager;
use exchange::middlewares::alt_auth_mw::bearer_token;
use exchange::middlewares::auth::{AuthenticatedUser, session_token, session_user, token_from_cookie_header, Claims};
use exchange::query::common::{order_keys, user_key};
use exchange::query::create_user::CreateUserResponse;
use exchange::query::find_user::FindUserResponse;
use exchange::query::is_user_exist::IsUserExistResponse;
use exchange::query::limit_order::{OrderColumns, order_columns};
use exchange::query::modify_order::{TermsUpdate, terms_update};
use exchange::query::query::{User, UserCreationResponse, UserStatusResponse};
use exchange::text::{blank, i32_to_text, parse_i32};

fn sorted(mut v: Vec<u64>) -> Vec<u64> {
    v.sort();
    v
}

#[test]
fn cookie_token_is_found_among_cookies() {
    assert_eq!(token_from_cookie_header("a=1; token=abc; b=2"), Some("abc".to_string()));
    assert_eq!(token_from_cookie_header("token=xyz"), Some("xyz".to_string()));
    assert_eq!(token_from_cookie_header("  token=  x ;"), Some("  x".to_string()));
    assert_eq!(token_from_cookie_header("a=token=1; token=2"), Some("2".to_string()));
    assert_eq!(token_from_cookie_header("tok=1"), None);
    assert_eq!(token_from_cookie_header(""), None);
}

#[test]
fn session_token_rejections() {
    assert_eq!(session_token(Some("token=t1")).ok(), Some("t1".to_string()));
    let e = session_token(None).err().unwrap();
    assert_eq!((e.status, e.message), (401, "missing token"));
    let e = session_token(Some("other=1")).err().unwrap();
    assert_eq!((e.status, e.message), (401, "missing token"));
    let e = session_user(None).err().unwrap();
    assert_eq!((e.status, e.message), (401, "invalid token"));
    let u = session_user(Some(Claims { user_id: "7".to_string(), exp: 5 })).ok().unwrap();
    assert_eq!(u, "7");
}

#[test]
fn authenticated_user_needs_extension() {
    assert_eq!(AuthenticatedUser::from_extension(Some("3".to_string())).ok().unwrap().0, "3");
    let e = AuthenticatedUser::from_extension(None).err().unwrap();
    assert_eq!((e.status, e.message), (401, "unauthorized"));
}

#[test]
fn bearer_header() {
    assert_eq!(bearer_token(Some("Bearer abc.def")).ok(), Some("abc.def".to_string()));
    assert_eq!(bearer_token(Some("Bearer ")).ok(), Some("".to_string()));
    let e = bearer_token(Some("bearer abc")).err().unwrap();
    assert_eq!((e.status, e.message), (401, "missing token"));
    assert!(bearer_token(None).is_err());
}

#[test]
fn ws_registry_tracks_sessions_by_user() {
    let mut w = WsManager::new();
    assert_eq!(w.register(None), 1);
    assert_eq!(w.register(Some("u1".to_string())), 2);
    assert_eq!(w.register(Some("u1".to_string())), 3);
    assert_eq!(w.register(Some("u2".to_string())), 4);
    assert_eq!(sorted(w.broadcast_targets()), vec![1, 2, 3, 4]);
    assert_eq!(sorted(w.unicast_targets(&"u1".to_string())), vec![2, 3]);
    w.unregister(2);
    assert_eq!(sorted(w.unicast_targets(&"u1".to_string())), vec![3]);
    w.unregister(3);
    assert!(w.unicast_targets(&"u1".to_string()).is_empty());
    assert_eq!(sorted(w.broadcast_targets()), vec![1, 4]);
    w.unregister(99);
    assert_eq!(sorted(w.broadcast_targets()), vec![1, 4]);
    assert_eq!(w.register(None), 5);
}

#[test]
fn parse_i32_follows_std() {
    for s in ["42", "-7", "+5", "", "-", "+", "12a", "2147483647", "2147483648", "-2147483648", "-2147483649", "007",
        "99999999999999999999", " 1"] {
        assert_eq!(parse_i32(s), s.parse::<i32>().ok(), "{}", s);
    }
}

#[test]
fn i32_text_follows_std() {
    for n in [0, 7, -42, 1234567, i32::MIN, i32::MAX] {
        assert_eq!(i32_to_text(n), n.to_string());
    }
}

#[test]
fn blank_follows_trim() {
    for s in ["", "  \t ", " a ", "\u{3000}", "\u{a0}x"] {
        assert_eq!(blank(s), s.trim().is_empty(), "{:?}", s);
    }
}

#[test]
fn order_keys_need_numeric_user_and_uuid() {
    assert_eq!(
        order_keys("7", "67e55044-10b1-426f-9247-bb680e5fe0c8"),
        Some((7, 0x67e5504410b1426f9247bb680e5fe0c8))
    );
    assert_eq!(order_keys("x", "67e55044-10b1-426f-9247-bb680e5fe0c8"), None);
    assert_eq!(order_keys("7", "nope"), None);
    assert_eq!(user_key("12"), Some(12));
    assert_eq!(user_key("abc"), None);
}

#[test]
fn query_rows_become_responses() {
    let r = FindUserResponse::from_row(Some((12, "a@b".to_string(), 50)));
    assert_eq!(r.user_id, Some("12".to_string()));
    assert_eq!(r.email, Some("a@b".to_string()));
    assert_eq!(r.balance, Some(50));
    let r = FindUserResponse::from_row(None);
    assert!(r.user_id.is_none() && r.email.is_none() && r.balance.is_none());
    let r = User::from_row(Some((-3, "c@d".to_string(), 0)));
    assert_eq!(r.user_id, Some("-3".to_string()));
    let r = CreateUserResponse::from_row(Some(99));
    assert!(r.success);
    assert_eq!(r.id, "99");
    let r = UserCreationResponse::from_row(None);
    assert!(!r.success);
    assert_eq!(r.id, "");
    assert!(IsUserExistResponse::from_row(Some("a@b".to_string())).is_user_exist);
    assert!(!UserStatusResponse::from_row(None).is_user_exist);
}

#[test]
fn query_column_choices() {
    assert!(matches!(order_columns(false, false), OrderColumns::Plain));
    assert!(matches!(order_columns(false, true), OrderColumns::StopLoss));
    assert!(matches!(order_columns(true, false), OrderColumns::TakeProfit));
    assert!(matches!(order_columns(true, true), OrderColumns::Both));
    assert!(matches!(terms_update(true, true), Some(TermsUpdate::Both)));
    assert!(matches!(terms_update(true, false), Some(TermsUpdate::TakeProfit)));
    assert!(matches!(terms_update(false, true), Some(TermsUpdate::StopLoss)));
    assert!(terms_update(false, false).is_none());
}

#[test]
fn signup_replies() {
    let req = SignupRequest { email: "a@b".to_string(), password: "pw".to_string() };
    assert!(signup_check(&req));
    assert!(!signup_check(&SignupRequest { email: "  ".to_string(), password: "pw".to_string() }));
    let r = signup_reply(&req, SignupOutcome::AlreadyExists);
    assert_eq!(r.status, 201);
    assert!(r.body.success);
    assert_eq!(r.body.message, "User a@b: already exist!");
    let r = signup_reply(&req, SignupOutcome::Created("5".to_string()));
    assert_eq!((r.status, r.body.message.as_str(), r.body.user_id), (201, "User registered successfully!", Some("5".to_string())));
    let r = signup_reply(&req, SignupOutcome::MissingData);
    assert_eq!((r.status, r.body.message.as_str()), (400, "missing required data"));
    let r = signup_reply(&req, SignupOutcome::HashFailed);
    assert_eq!(r.status, 500);
}

#[test]
fn signin_replies() {
    assert!(!signin_check(&SigninRequest { email: "a@b".to_string(), password: "\t".to_string() }));
    let r = signin_reply(SigninOutcome::UnknownUser);
    assert_eq!((r.status, r.body.message.as_str()), (404, "user not exist"));
    let r = signin_reply(SigninOutcome::SignedIn("9".to_string()));
    assert_eq!((r.status, r.body.success, r.body.user_id), (202, true, Some("9".to_string())));
}

#[test]
fn session_claims_expire_after_their_duration() {
    let c = claims_at("1".to_string(), 1_000, 60);
    assert_eq!((c.user_id.as_str(), c.exp), ("1", 1_060));
    let c = claims_from_now("2".to_string(), 86_400).unwrap();
    assert_eq!(c.user_id, "2");
    assert!(c.exp >= 86_400 + 1_600_000_000);
}

#[test]
fn expiry_follows_the_clock_reading() {
    assert_eq!(expiry_after(Some(1_000), 60), Some(1_060));
    assert_eq!(expiry_after(None, 60), None);
    assert_eq!(expiry_after(Some(1 << 48), 60), None);
    assert!(expiry_from_now(60).unwrap() >= 1_600_000_060);
}

#[test]
fn deposit_and_withdraw_replies() {
    assert!(!deposit_check(&DepositRequest { amount: -1 }));
    assert!(deposit_check(&DepositRequest { amount: 0 }));
    let r = deposit_reply(DepositOutcome::Negative);
    assert_eq!((r.status, r.body.message.as_str()), (400, "amount cant be negative"));
    let r = deposit_reply(DepositOutcome::Done);
    assert_eq!((r.status, r.body.success), (200, true));
    let r = withdraw_reply(WithdrawOutcome::Failed);
    assert_eq!((r.status, r.body.message.as_str()), (409, "failed to withdraw"));
}

#[test]
fn user_ids_read_back_as_written() {
    for n in [0, 7, 42, -1, -305, 1_000_000, i32::MAX, i32::MIN] {
        assert_eq!(parse_i32(&i32_to_text(n)), Some(n));
        assert_eq!(user_key(&i32_to_text(n)), Some(n));
    }
}

#[test]
fn ws_next_id_counts_sessions() {
    let mut w = WsManager::new();
    assert_eq!(w.next_id(), 1);
    let a = w.register(Some("u1".to_string()));
    assert_eq!(a, 1);
    assert_eq!(w.next_id(), 2);
    w.unregister(a);
    assert_eq!(w.next_id(), 2);
    assert_eq!(w.register(None), 2);
}

#[test]
fn session_cookie_reads_back() {
    for t in ["eyJhbGciOiJIUzI1NiJ9.eyJ1c2VyX2lkIjoiNyJ9.c2ln", "x", ""] {
        let header = format!("token={}", t);
        assert_eq!(token_from_cookie_header(&header), Some(t.to_string()));
        assert_eq!(session_token(Some(&header)).ok(), Some(t.to_string()));
    }
}

#[test]
fn passwords_are_stored_hashed() {
    let req = SignupRequest { email: "a@b.c".to_string(), password: "hunter2".to_string() };
    let h = match hashed_password(&req) {
        Ok(h) => h,
        Err(_) => panic!("hashing failed"),
    };
    assert_eq!(h.len(), 60);
    assert!(h.starts_with("$2b$12$"));
    assert_ne!(h, req.password);
    assert!(bcrypt::verify("hunter2", &h).unwrap());
}

#[test]
fn order_request_field_checks() {
    assert!(limit_fields_valid("BTC", 1, "limit", 5));
    assert!(!limit_fields_valid("", 1, "limit", 5));
    assert!(!limit_fields_valid("BTC", 2, "limit", 5));
    assert!(!limit_fields_valid("BTC", 0, "", 5));
    assert!(!limit_fields_valid("BTC", 0, "limit", 0));
    assert!(market_fields_valid("BTC", 0, "market"));
    assert!(!market_fields_valid("BTC", 2, "market"));
    assert!(!market_fields_valid("", 0, "market"));
    assert!(!market_fields_valid("BTC", 1, ""));
}

#[test]
fn fill_messages_reach_buyer_then_seller() {
    let mut w = WsManager::new();
    let a = w.register(Some("u1".to_string()));
    let b = w.register(Some("u2".to_string()));
    let _c = w.register(None);
    assert_eq!(w.fill_targets(&Some("u1".to_string()), &Some("u2".to_string())), vec![a, b]);
    assert_eq!(w.fill_targets(&Some("u2".to_string()), &None), vec![b]);
    assert_eq!(w.fill_targets(&Some("u1".to_string()), &Some("u1".to_string())), vec![a, a]);
    assert!(w.fill_targets(&None, &Some("u3".to_string())).is_empty());
}
