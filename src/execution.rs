use vstd::prelude::*;

verus! {

/// What an execution engine says of a payload.
#[derive(Debug, PartialEq, Eq, Clone, Copy, Structural)]
pub enum ExecutePayloadResponse {
    Valid,
    Invalid,
    Syncing,
}

/// Why an execution engine could not answer, with the index of the engine.
#[derive(Debug, PartialEq, Eq, Clone, Copy, Structural)]
pub enum EngineError {
    Offline(usize),
    Api(usize),
}

#[derive(Debug, PartialEq, Eq)]
pub enum Error {
    NoEngines,
    ApiError(EngineError),
    EngineErrors(Vec<EngineError>),
    NotSynced,
    ShuttingDown,
    FeeRecipientUnspecified,
}

/// Whether some answer of `results` is `v`.
pub open spec fn some_answer(results: Seq<Result<ExecutePayloadResponse, EngineError>>, v: ExecutePayloadResponse) -> bool {
    exists|i: int| 0 <= i < results.len() && results[i] == Ok::<ExecutePayloadResponse, EngineError>(v)
}

/// The errors of `results`, in order.
pub open spec fn errors_of<T>(results: Seq<Result<T, EngineError>>) -> Seq<EngineError>
    decreases results.len(),
{
    if results.len() == 0 {
        Seq::empty()
    } else {
        let rest = errors_of(results.drop_last());
        match results.last() {
            Ok(_) => rest,
            Err(e) => rest.push(e),
        }
    }
}

/// Combines the answers of every engine to a payload: valid if any engine found it valid,
/// else invalid if any found it invalid, else syncing if any is syncing; when none answered,
/// every engine's error.
pub fn aggregate_execute_payload(results: &Vec<Result<ExecutePayloadResponse, EngineError>>) -> (r: Result<ExecutePayloadResponse, Error>)
    ensures
        some_answer(results@, ExecutePayloadResponse::Valid) ==> r == Ok::<ExecutePayloadResponse, Error>(ExecutePayloadResponse::Valid),
        !some_answer(results@, ExecutePayloadResponse::Valid) && some_answer(results@, ExecutePayloadResponse::Invalid)
            ==> r == Ok::<ExecutePayloadResponse, Error>(ExecutePayloadResponse::Invalid),
        !some_answer(results@, ExecutePayloadResponse::Valid) && !some_answer(results@, ExecutePayloadResponse::Invalid)
            && some_answer(results@, ExecutePayloadResponse::Syncing) ==> r == Ok::<ExecutePayloadResponse, Error>(ExecutePayloadResponse::Syncing),
        r is Err ==> (match r->Err_0 {
            Error::EngineErrors(es) => es@ == errors_of(results@),
            _ => false,
        }),
        (forall|i: int| 0 <= i < results@.len() ==> results@[i] is Err) ==> r is Err,
{
    let mut valid = false;
    let mut invalid = false;
    let mut syncing = false;
    let mut errors: Vec<EngineError> = Vec::new();
    let mut k: usize = 0;
    while k < results.len()
        invariant
            k <= results@.len(),
            valid == some_answer(results@.subrange(0, k as int), ExecutePayloadResponse::Valid),
            invalid == some_answer(results@.subrange(0, k as int), ExecutePayloadResponse::Invalid),
            syncing == some_answer(results@.subrange(0, k as int), ExecutePayloadResponse::Syncing),
            errors@ == errors_of(results@.subrange(0, k as int)),
        decreases results@.len() - k,
    {
        let ghost pre = results@.subrange(0, k as int);
        let ghost post = results@.subrange(0, k + 1);
        assert(post.drop_last() =~= pre);
        proof {
            assert forall|v: ExecutePayloadResponse| some_answer(post, v) <==> (some_answer(pre, v) || results@[k as int] == Ok::<ExecutePayloadResponse, EngineError>(v)) by {
                if some_answer(post, v) {
                    let i = choose|i: int| 0 <= i < post.len() && post[i] == Ok::<ExecutePayloadResponse, EngineError>(v);
                    if i < k {
                        assert(pre[i] == post[i]);
                    }
                }
                if some_answer(pre, v) {
                    let i = choose|i: int| 0 <= i < pre.len() && pre[i] == Ok::<ExecutePayloadResponse, EngineError>(v);
                    assert(post[i] == pre[i]);
                }
                if results@[k as int] == Ok::<ExecutePayloadResponse, EngineError>(v) {
                    assert(post[k as int] == results@[k as int]);
                }
            }
        }
        match &results[k] {
            Ok(ExecutePayloadResponse::Valid) => {
                valid = true;
            },
            Ok(ExecutePayloadResponse::Invalid) => {
                invalid = true;
            },
            Ok(ExecutePayloadResponse::Syncing) => {
                syncing = true;
            },
            Err(e) => {
                errors.push(*e);
            },
        }
        k = k + 1;
    }
    assert(results@.subrange(0, k as int) =~= results@);
    if valid {
        Ok(ExecutePayloadResponse::Valid)
    } else if invalid {
        Ok(ExecutePayloadResponse::Invalid)
    } else if syncing {
        Ok(ExecutePayloadResponse::Syncing)
    } else {
        Err(Error::EngineErrors(errors))
    }
}

/// Combines the answers of every engine to a broadcast: success if any engine succeeded,
/// else every engine's error.
pub fn any_success(results: &Vec<Result<(), EngineError>>) -> (r: Result<(), Error>)
    ensures
        r is Ok <==> exists|i: int| 0 <= i < results@.len() && results@[i] is Ok,
        r is Err ==> (match r->Err_0 {
            Error::EngineErrors(es) => es@ == errors_of(results@),
            _ => false,
        }),
{
    let mut ok = false;
    let mut errors: Vec<EngineError> = Vec::new();
    let mut k: usize = 0;
    while k < results.len()
        invariant
            k <= results@.len(),
            ok == exists|i: int| 0 <= i < k && results@[i] is Ok,
            errors@ == errors_of(results@.subrange(0, k as int)),
        decreases results@.len() - k,
    {
        let ghost pre = results@.subrange(0, k as int);
        assert(results@.subrange(0, k + 1).drop_last() =~= pre);
        match &results[k] {
            Ok(_) => {
                ok = true;
            },
            Err(e) => {
                errors.push(*e);
            },
        }
        k = k + 1;
    }
    assert(results@.subrange(0, k as int) =~= results@);
    if ok {
        Ok(())
    } else {
        Err(Error::EngineErrors(errors))
    }
}

} // verus!
