# llm_probe

Uncertainty reports for the answers of language-model servers, as a library
whose behaviour is stated in contracts and proved by Verus, and a proxy around
it.

Put the proxy in front of any OpenAI-compatible server:

```bash
PROBE_UPSTREAM=http://127.0.0.1:8080 probe-proxy     # listens on :8099
curl :8099/v1/chat/completions -d '{..., "detect_hallucination": true}'
```

The answer gains a member `hallucination` with a risk score, the mean entropy,
the fraction of risky tokens and the place of the most uncertain one. All other
requests pass through.

The report speaks of uncertainty and is no oracle. In its entropy the probability
beyond the returned top log-probabilities counts as one outcome. That makes it a
lower bound, but for the error of the arithmetic: `modes` proves how far it can
exceed the exact one.

## Layout

- `src/` is the verified library: the detector, the analysis of answers, and
  every decision of the proxy.
- `app/` holds the sockets, the HTTP client, the environment and the machine's
  floating-point operations.
- `tests/` runs the library on real numbers, JSON values and headers.

## Numbers

The library carries a binary32 number as its encoding. Comparisons, extremes,
clamping and sorting are integer operations and proved. The operations that round
are methods of the trait `Arithmetic`. The contracts say which of them is applied
to what, and assume nothing of the results. Some laws name what they need
of them: `determined` that each has one result, `bounds` that rounding keeps the
order of numbers, `shift` that the operations go by the numbers that are meant,
`modes` that they come close to the exact results.

## Configuration

`PROBE_UPSTREAM` (default `http://127.0.0.1:8080`), `PROBE_PORT` (8099),
`PROBE_TOP_LOGPROBS` (10), `PROBE_PER_TOKEN` (lists the tokens in reports).
