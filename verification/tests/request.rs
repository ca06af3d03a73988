use nippy_jar::primitives::{AccessList, AccessListItem, Address, B256, U256};
use nippy_jar::request::{TransactionKind, TransactionRequest, TypedTransactionRequest};

fn some_list() -> AccessList {
    AccessList(vec![AccessListItem { address: Address([7; 20]), storage_keys: vec![B256([1; 32])] }])
}

#[test]
fn gas_price_alone_is_legacy() {
    let req = TransactionRequest::default()
        .to(Address([1; 20]))
        .nonce(5)
        .gas_limit(21000)
        .value(10)
        .input(vec![1, 2, 3]);
    let req = TransactionRequest { gas_price: Some(9), ..req };
    match req.into_typed_request() {
        Some(TypedTransactionRequest::Legacy(t)) => {
            assert_eq!(t.nonce, 5);
            assert_eq!(t.gas_price, 9);
            assert_eq!(t.gas_limit, U256::from_u64(21000));
            assert_eq!(t.value, U256::from_u64(10));
            assert_eq!(t.input, vec![1, 2, 3]);
            assert_eq!(t.kind, TransactionKind::Call(Address([1; 20])));
            assert_eq!(t.chain_id, None);
        }
        other => panic!("unexpected {:?}", other),
    }
}

#[test]
fn access_list_without_fee_cap_is_eip2930() {
    let req = TransactionRequest::default().access_list(some_list());
    match req.clone().into_typed_request() {
        Some(TypedTransactionRequest::EIP2930(t)) => {
            assert_eq!(t.chain_id, 0);
            assert_eq!(t.nonce, 0);
            assert_eq!(t.gas_price, 0);
            assert_eq!(t.gas_limit, U256::zero());
            assert_eq!(t.value, U256::zero());
            assert!(t.input.is_empty());
            assert_eq!(t.kind, TransactionKind::Create);
            assert_eq!(t.access_list, some_list());
        }
        other => panic!("unexpected {:?}", other),
    }
    let priced = TransactionRequest { gas_price: Some(3), ..req };
    match priced.into_typed_request() {
        Some(TypedTransactionRequest::EIP2930(t)) => assert_eq!(t.gas_price, 3),
        other => panic!("unexpected {:?}", other),
    }
}

#[test]
fn fee_cap_is_eip1559() {
    let req = TransactionRequest::default().max_fee_per_gas(100).max_priority_fee_per_gas(2);
    match req.clone().into_typed_request() {
        Some(TypedTransactionRequest::EIP1559(t)) => {
            assert_eq!(t.chain_id, 0);
            assert_eq!(t.max_fee_per_gas, 100);
            assert_eq!(t.max_priority_fee_per_gas, 2);
            assert_eq!(t.access_list, AccessList(vec![]));
            assert_eq!(t.kind, TransactionKind::Create);
        }
        other => panic!("unexpected {:?}", other),
    }
    match req.access_list(some_list()).into_typed_request() {
        Some(TypedTransactionRequest::EIP1559(t)) => assert_eq!(t.access_list, some_list()),
        other => panic!("unexpected {:?}", other),
    }
}

#[test]
fn empty_request_is_eip1559() {
    match TransactionRequest::default().into_typed_request() {
        Some(TypedTransactionRequest::EIP1559(t)) => {
            assert_eq!(t.nonce, 0);
            assert_eq!(t.max_fee_per_gas, 0);
            assert_eq!(t.max_priority_fee_per_gas, 0);
            assert_eq!(t.gas_limit, U256::zero());
            assert!(t.input.is_empty());
            assert!(t.access_list.0.is_empty());
        }
        other => panic!("unexpected {:?}", other),
    }
}

#[test]
fn gas_price_with_fee_cap_is_refused() {
    let req = TransactionRequest { gas_price: Some(1), ..TransactionRequest::default() }
        .max_fee_per_gas(2);
    assert_eq!(req.clone().into_typed_request(), None);
    assert_eq!(req.access_list(some_list()).into_typed_request(), None);
}

#[test]
fn nonce_steps_wrap_around() {
    assert_eq!(TransactionRequest::default().inc_nonce().nonce, Some(1));
    assert_eq!(TransactionRequest::default().nonce(41).inc_nonce().nonce, Some(42));
    assert_eq!(TransactionRequest::default().nonce(u64::MAX).inc_nonce().nonce, Some(0));
    assert_eq!(TransactionRequest::default().dcr_nonce().nonce, None);
    assert_eq!(TransactionRequest::default().nonce(42).dcr_nonce().nonce, Some(41));
    assert_eq!(TransactionRequest::default().nonce(0).dcr_nonce().nonce, Some(u64::MAX));
}

#[test]
fn setters_touch_one_field() {
    let base = TransactionRequest::default();
    assert_eq!(
        base.clone().gas_limit(5),
        TransactionRequest { gas: Some(U256::from_u64(5)), ..base.clone() }
    );
    assert_eq!(
        base.clone().value(u128::MAX),
        TransactionRequest { value: Some(U256::from_u128(u128::MAX)), ..base.clone() }
    );
    assert_eq!(
        base.clone().transaction_type(2),
        TransactionRequest { transaction_type: Some(2), ..base.clone() }
    );
    assert_eq!(
        base.clone().to(Address([9; 20])),
        TransactionRequest { to: Some(Address([9; 20])), ..base.clone() }
    );
    assert_eq!(
        base.clone().input(vec![0xde, 0xad]),
        TransactionRequest { data: Some(vec![0xde, 0xad]), ..base.clone() }
    );
    assert_eq!(
        base.clone().max_priority_fee_per_gas(8),
        TransactionRequest { max_priority_fee_per_gas: Some(8), ..base }
    );
}
