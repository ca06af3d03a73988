//! Transaction requests as they arrive over RPC, and their reconciliation
//! into one of the typed request shapes.

use vstd::prelude::*;
use crate::primitives::{AccessList, Address, U256};

verus! {

/// Whether a transaction calls an account or creates a contract.
#[derive(Debug, Clone, Copy, PartialEq, Eq)]
pub enum TransactionKind {
    /// A call to the given address.
    Call(Address),
    /// A contract creation.
    Create,
}

/// A legacy transaction request.
#[derive(Debug, Clone, PartialEq, Eq)]
pub struct LegacyTransactionRequest {
    pub nonce: u64,
    pub gas_price: u128,
    pub gas_limit: U256,
    pub kind: TransactionKind,
    pub value: U256,
    pub input: Vec<u8>,
    pub chain_id: Option<u64>,
}

/// A transaction request that carries an access list.
#[derive(Debug, Clone, PartialEq, Eq)]
pub struct EIP2930TransactionRequest {
    pub chain_id: u64,
    pub nonce: u64,
    pub gas_price: u128,
    pub gas_limit: U256,
    pub kind: TransactionKind,
    pub value: U256,
    pub input: Vec<u8>,
    pub access_list: AccessList,
}

/// A transaction request with a fee market.
#[derive(Debug, Clone, PartialEq, Eq)]
pub struct EIP1559TransactionRequest {
    pub chain_id: u64,
    pub nonce: u64,
    pub max_priority_fee_per_gas: u128,
    pub max_fee_per_gas: u128,
    pub gas_limit: U256,
    pub kind: TransactionKind,
    pub value: U256,
    pub input: Vec<u8>,
    pub access_list: AccessList,
}

/// A transaction request whose shape has been decided.
#[derive(Debug, Clone, PartialEq, Eq)]
pub enum TypedTransactionRequest {
    Legacy(LegacyTransactionRequest),
    EIP2930(EIP2930TransactionRequest),
    EIP1559(EIP1559TransactionRequest),
}

/// Represents _all_ transaction requests received from RPC.
#[derive(Debug, Clone, PartialEq, Eq, Default)]
pub struct TransactionRequest {
    /// from address
    pub from: Option<Address>,
    /// to address
    pub to: Option<Address>,
    /// legacy, gas price
    pub gas_price: Option<u128>,
    /// max base fee per gas sender is willing to pay
    pub max_fee_per_gas: Option<u128>,
    /// miner tip
    pub max_priority_fee_per_gas: Option<u128>,
    /// gas
    pub gas: Option<U256>,
    /// value of the transaction in wei
    pub value: Option<U256>,
    /// any additional data sent
    pub data: Option<Vec<u8>>,
    /// transaction nonce
    pub nonce: Option<u64>,
    /// warm storage access pre-payment
    pub access_list: Option<AccessList>,
    /// EIP-2718 type
    pub transaction_type: Option<u8>,
}

/// The shape that a request is reconciled into.
pub enum RequestShape {
    Legacy,
    EIP2930,
    EIP1559,
}

impl TransactionRequest {
    /// The shape that the fee fields and the access list select, if any:
    /// a gas price alone is legacy; an access list without a fee cap is
    /// EIP-2930; a fee cap without a gas price, or none of the three, is
    /// EIP-1559; a gas price together with a fee cap selects nothing.
    pub open spec fn shape(&self) -> Option<RequestShape> {
        match (self.gas_price, self.max_fee_per_gas, self.access_list) {
            (Some(_), None, None) => Some(RequestShape::Legacy),
            (_, None, Some(_)) => Some(RequestShape::EIP2930),
            (None, Some(_), _) => Some(RequestShape::EIP1559),
            (None, None, None) => Some(RequestShape::EIP1559),
            (Some(_), Some(_), _) => None,
        }
    }

    /// The recipient as a transaction kind.
    pub open spec fn kind(&self) -> TransactionKind {
        match self.to {
            Some(to) => TransactionKind::Call(to),
            None => TransactionKind::Create,
        }
    }

    /// The nonce, zero when absent.
    pub open spec fn nonce_or_default(&self) -> u64 {
        match self.nonce {
            Some(n) => n,
            None => 0,
        }
    }

    /// The gas price, zero when absent.
    pub open spec fn gas_price_or_default(&self) -> u128 {
        match self.gas_price {
            Some(n) => n,
            None => 0,
        }
    }

    /// The fee cap, zero when absent.
    pub open spec fn max_fee_or_default(&self) -> u128 {
        match self.max_fee_per_gas {
            Some(n) => n,
            None => 0,
        }
    }

    /// The tip, zero when absent.
    pub open spec fn max_priority_fee_or_default(&self) -> u128 {
        match self.max_priority_fee_per_gas {
            Some(n) => n,
            None => 0,
        }
    }

    /// The limbs of the gas limit, all zero when absent.
    pub open spec fn gas_or_default(&self) -> Seq<u64> {
        match self.gas {
            Some(n) => n.limbs@,
            None => seq![0u64, 0u64, 0u64, 0u64],
        }
    }

    /// The limbs of the value, all zero when absent.
    pub open spec fn value_or_default(&self) -> Seq<u64> {
        match self.value {
            Some(n) => n.limbs@,
            None => seq![0u64, 0u64, 0u64, 0u64],
        }
    }

    /// The input bytes, empty when absent.
    pub open spec fn input_or_default(&self) -> Seq<u8> {
        match self.data {
            Some(d) => d@,
            None => Seq::empty(),
        }
    }

    /// Whether `list` is the request's access list, or an empty one when the
    /// request has none.
    pub open spec fn is_access_list_or_default(&self, list: AccessList) -> bool {
        match self.access_list {
            Some(al) => list == al,
            None => list.0@ =~= Seq::empty(),
        }
    }

    /// Converts the request into a [`TypedTransactionRequest`].
    ///
    /// Returns `None` if the mutually exclusive fields `gas_price` and
    /// `max_fee_per_gas` are both set. Every field that the chosen shape has
    /// and the request lacks takes its zero or empty value.
    pub fn into_typed_request(self) -> (r: Option<TypedTransactionRequest>)
        ensures
            match self.shape() {
                None => r is None,
                Some(RequestShape::Legacy) => r matches Some(TypedTransactionRequest::Legacy(t))
                    && t.nonce == self.nonce_or_default()
                    && t.gas_price == self.gas_price_or_default()
                    && t.gas_limit.limbs@ == self.gas_or_default()
                    && t.kind == self.kind()
                    && t.value.limbs@ == self.value_or_default()
                    && t.input@ == self.input_or_default()
                    && t.chain_id is None,
                Some(RequestShape::EIP2930) => r matches Some(TypedTransactionRequest::EIP2930(t))
                    && t.chain_id == 0
                    && t.nonce == self.nonce_or_default()
                    && t.gas_price == self.gas_price_or_default()
                    && t.gas_limit.limbs@ == self.gas_or_default()
                    && t.kind == self.kind()
                    && t.value.limbs@ == self.value_or_default()
                    && t.input@ == self.input_or_default()
                    && self.is_access_list_or_default(t.access_list),
                Some(RequestShape::EIP1559) => r matches Some(TypedTransactionRequest::EIP1559(t))
                    && t.chain_id == 0
                    && t.nonce == self.nonce_or_default()
                    && t.max_priority_fee_per_gas == self.max_priority_fee_or_default()
                    && t.max_fee_per_gas == self.max_fee_or_default()
                    && t.gas_limit.limbs@ == self.gas_or_default()
                    && t.kind == self.kind()
                    && t.value.limbs@ == self.value_or_default()
                    && t.input@ == self.input_or_default()
                    && self.is_access_list_or_default(t.access_list),
            },
    {
        let TransactionRequest {
            to,
            gas_price,
            max_fee_per_gas,
            max_priority_fee_per_gas,
            gas,
            value,
            data,
            nonce,
            access_list,
            ..
        } = self;
        let kind = match to {
            Some(to) => TransactionKind::Call(to),
            None => TransactionKind::Create,
        };
        let nonce: u64 = match nonce {
            Some(n) => n,
            None => 0,
        };
        let gas_limit = match gas {
            Some(g) => g,
            None => U256::zero(),
        };
        let value = match value {
            Some(v) => v,
            None => U256::zero(),
        };
        let input = match data {
            Some(d) => d,
            None => Vec::new(),
        };
        match (gas_price, max_fee_per_gas, access_list) {
            // legacy transaction
            (Some(price), None, None) => Some(
                TypedTransactionRequest::Legacy(
                    LegacyTransactionRequest {
                        nonce,
                        gas_price: price,
                        gas_limit,
                        value,
                        input,
                        kind,
                        chain_id: None,
                    },
                ),
            ),
            // EIP2930
            (price, None, Some(access_list)) => {
                let gas_price: u128 = match price {
                    Some(p) => p,
                    None => 0,
                };
                Some(
                    TypedTransactionRequest::EIP2930(
                        EIP2930TransactionRequest {
                            nonce,
                            gas_price,
                            gas_limit,
                            value,
                            input,
                            kind,
                            chain_id: 0,
                            access_list,
                        },
                    ),
                )
            },
            // EIP1559: empty fields fall back to the canonical transaction schema.
            (None, max_fee, access_list) => {
                let max_fee_per_gas: u128 = match max_fee {
                    Some(f) => f,
                    None => 0,
                };
                let max_priority_fee_per_gas: u128 = match max_priority_fee_per_gas {
                    Some(f) => f,
                    None => 0,
                };
                let access_list = match access_list {
                    Some(al) => al,
                    None => AccessList(Vec::new()),
                };
                Some(
                    TypedTransactionRequest::EIP1559(
                        EIP1559TransactionRequest {
                            nonce,
                            max_fee_per_gas,
                            max_priority_fee_per_gas,
                            gas_limit,
                            value,
                            input,
                            kind,
                            chain_id: 0,
                            access_list,
                        },
                    ),
                )
            },
            _ => None,
        }
    }

    /// Sets the gas limit for the transaction.
    pub fn gas_limit(self, gas_limit: u64) -> (r: Self)
        ensures
            r.gas matches Some(g) && g.limbs@ == seq![gas_limit, 0u64, 0u64, 0u64],
            r == (TransactionRequest { gas: r.gas, ..self }),
    {
        let mut req = self;
        req.gas = Some(U256::from_u64(gas_limit));
        req
    }

    /// Sets the nonce for the transaction.
    pub fn nonce(self, nonce: u64) -> (r: Self)
        ensures
            r == (TransactionRequest { nonce: Some(nonce), ..self }),
    {
        let mut req = self;
        req.nonce = Some(nonce);
        req
    }

    /// Increments the nonce for the transaction, wrapping around at the top
    /// of the 64-bit range; an absent nonce becomes one.
    pub fn inc_nonce(self) -> (r: Self)
        ensures
            r == (TransactionRequest {
                nonce: Some(
                    match self.nonce {
                        Some(n) => if n == u64::MAX {
                            0u64
                        } else {
                            (n + 1) as u64
                        },
                        None => 1u64,
                    },
                ),
                ..self
            }),
    {
        let next: u64 = match self.nonce {
            Some(n) => if n == u64::MAX {
                0
            } else {
                n + 1
            },
            None => 1,
        };
        let mut req = self;
        req.nonce = Some(next);
        req
    }

    /// Decrements the nonce for the transaction, wrapping around at zero; an
    /// absent nonce stays absent.
    pub fn dcr_nonce(self) -> (r: Self)
        ensures
            r == (TransactionRequest {
                nonce: match self.nonce {
                    Some(n) => Some(
                        if n == 0 {
                            u64::MAX
                        } else {
                            (n - 1) as u64
                        },
                    ),
                    None => None,
                },
                ..self
            }),
    {
        let mut req = self;
        match req.nonce {
            Some(n) => {
                let prev: u64 = if n == 0 {
                    u64::MAX
                } else {
                    n - 1
                };
                req.nonce = Some(prev);
            },
            None => {},
        }
        req
    }

    /// Sets the maximum fee per gas for the transaction.
    pub fn max_fee_per_gas(self, max_fee_per_gas: u128) -> (r: Self)
        ensures
            r == (TransactionRequest { max_fee_per_gas: Some(max_fee_per_gas), ..self }),
    {
        let mut req = self;
        req.max_fee_per_gas = Some(max_fee_per_gas);
        req
    }

    /// Sets the maximum priority fee per gas for the transaction.
    pub fn max_priority_fee_per_gas(self, max_priority_fee_per_gas: u128) -> (r: Self)
        ensures
            r == (TransactionRequest {
                max_priority_fee_per_gas: Some(max_priority_fee_per_gas),
                ..self
            }),
    {
        let mut req = self;
        req.max_priority_fee_per_gas = Some(max_priority_fee_per_gas);
        req
    }

    /// Sets the recipient address for the transaction.
    pub fn to(self, to: Address) -> (r: Self)
        ensures
            r == (TransactionRequest { to: Some(to), ..self }),
    {
        let mut req = self;
        req.to = Some(to);
        req
    }

    /// Sets the value (amount) for the transaction.
    pub fn value(self, value: u128) -> (r: Self)
        ensures
            r.value matches Some(v) && v@ == value as nat,
            r == (TransactionRequest { value: r.value, ..self }),
    {
        let mut req = self;
        req.value = Some(U256::from_u128(value));
        req
    }

    /// Sets the access list for the transaction.
    pub fn access_list(self, access_list: AccessList) -> (r: Self)
        ensures
            r == (TransactionRequest { access_list: Some(access_list), ..self }),
    {
        let mut req = self;
        req.access_list = Some(access_list);
        req
    }

    /// Sets the input data for the transaction.
    pub fn input(self, input: Vec<u8>) -> (r: Self)
        ensures
            r == (TransactionRequest { data: Some(input), ..self }),
    {
        let mut req = self;
        req.data = Some(input);
        req
    }

    /// Sets the transaction type for the transaction.
    pub fn transaction_type(self, transaction_type: u8) -> (r: Self)
        ensures
            r == (TransactionRequest { transaction_type: Some(transaction_type), ..self }),
    {
        let mut req = self;
        req.transaction_type = Some(transaction_type);
        req
    }
}

} // verus!
