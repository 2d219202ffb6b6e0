Texture2D sceneTex   : register(t0);
Texture2DArray hiTex : register(t1);
Texture2D groundTex  : register(t2);
SamplerState samp    : register(s0);

float4 sharpTap(Texture2D tex, float2 uv, float2 ts, float sharpen) {
    float2 p = uv * ts;
    float2 tf = floor(p);
    float2 cd = (p - tf) - 0.5;
    float2 rr = 0.5 - 0.5 / sharpen;
    float2 f = (cd - clamp(cd, -rr, rr)) * sharpen + 0.5;
    return tex.Sample(samp, (tf + f) / ts);
}

float4 sharpTapA(Texture2DArray tex, float2 uv, float slice, float2 ts, float sharpen) {
    float2 p = uv * ts;
    float2 tf = floor(p);
    float2 cd = (p - tf) - 0.5;
    float2 rr = 0.5 - 0.5 / sharpen;
    float2 f = (cd - clamp(cd, -rr, rr)) * sharpen + 0.5;
    return tex.Sample(samp, float3((tf + f) / ts, slice));
}
